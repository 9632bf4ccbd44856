//! The consensus worker: what it is asked, what it is told, what it emits.
//!
//! The worker owns the block graph and the selector.  It handles one input
//! at a time and answers with the actions that are to be sent on; whoever
//! drives it waits for the inputs and sends the actions.

use crate::block::{
    Block, BlockHeader, BlockId, BlockView, HeaderView, Operation, operation_encoding,
};
use crate::block_graph::calm::{lost_to_final, queue_fresh};
use crate::block_graph::model::{
    allowed, among, distinct, holds, is_settled, missing, named_in, position, wanted,
};
use crate::block_graph::{
    Admission, BlockGraph, BlockGraphExport, BlockState, RejectReason, Sweep,
};
use crate::config::ConsensusConfig;
use crate::error::ConsensusError;
use crate::selector::{drawn_index, RandomSelector, selector_inputs_ok};
use crate::signature::{ed25519_public_key, PrivateKey, PublicKey, SignatureEngine};
use crate::slot::Slot;
use crate::timeslots::{clock_ok, get_latest_block_slot_at_timestamp, slot_instant};
use vstd::prelude::*;

verus! {

/// Commands that can be processed by consensus.
#[derive(Debug, Clone, Copy, PartialEq, Eq)]
pub enum ConsensusCommand {
    /// Asks for the block graph without the operations of the blocks.
    GetBlockGraphStatus,
    /// Asks for the block with the given hash.
    GetActiveBlock { hash: BlockId },
    /// Asks for the slots from `start` up to, not including, `end`, each
    /// with the public key of the node entitled to it.
    GetSelectionDraws { start: Slot, end: Slot },
}

/// What is answered to a command.
#[derive(Debug, PartialEq, Eq)]
pub enum ConsensusResponse {
    /// The answer to `GetBlockGraphStatus`.
    BlockGraphStatus(BlockGraphExport),
    /// The answer to `GetActiveBlock`.
    ActiveBlock(Option<Block>),
    /// The answer to `GetSelectionDraws`.
    SelectionDraws(Result<Vec<(Slot, PublicKey)>, ConsensusError>),
}

/// What the peer layer tells the worker.
#[derive(Debug, Clone, PartialEq, Eq)]
pub enum ProtocolEvent {
    /// A block has arrived.
    ReceivedBlock { hash: BlockId, block: Block },
    /// A header has arrived.
    ReceivedBlockHeader { hash: BlockId, header: crate::block::BlockHeader },
    /// An operation has arrived.
    ReceivedTransaction(Operation),
    /// A peer asks for a block.
    GetBlock(BlockId),
}

/// Events that are emitted by consensus to its controller.  The worker
/// emits none of its own accord; what it asks of the peer layer, of the
/// archive and of the pool are actions.
#[derive(Debug, Clone, Copy, PartialEq, Eq)]
pub enum ConsensusEvent {
    /// Nothing has happened.
    Nothing,
}

/// What the worker asks of the peer layer, of the archive and of the pool
/// after it has handled an input.
#[derive(Debug, Clone, PartialEq, Eq)]
pub enum ConsensusAction {
    /// A block has become active: the peers are to be told.
    IntegratedBlock { hash: BlockId, block: Block },
    /// A creator, named by the hash of its key, has signed two blocks for
    /// one slot.
    NotifyBlockAttack { attacker: crate::hash::Hash },
    /// The hashes that the node wants have changed.
    SendWishlistDelta { new: Vec<BlockId>, remove: Vec<BlockId> },
    /// A peer asked for a block, and here it is.
    FoundBlock { hash: BlockId, block: Block },
    /// A peer asked for a block that the node does not have.
    BlockNotFound { hash: BlockId },
    /// Final blocks have left the memory: the archive is to keep them.
    AddBlockBatch { blocks: Vec<(BlockId, Block)> },
    /// A peer asked for a block that is not in memory: the archive is to be
    /// asked for it.
    GetBlockFromStorage { hash: BlockId },
    /// An operation has arrived: the pool is to keep it.
    AddToPool { operation: Operation },
}

/// Commands by which the worker is managed.  The worker stops when the
/// channel that carries them is closed; a command that arrives changes
/// nothing.
#[derive(Debug, Clone, Copy, PartialEq, Eq)]
pub enum ConsensusManagementCommand {
    /// Keeps the channel open.
    KeepAlive,
}

/// What an action says.
pub enum ActionView {
    IntegratedBlock { hash: BlockId, block: BlockView },
    NotifyBlockAttack { attacker: crate::hash::Hash },
    SendWishlistDelta { new: Seq<BlockId>, remove: Seq<BlockId> },
    FoundBlock { hash: BlockId, block: BlockView },
    BlockNotFound { hash: BlockId },
    AddBlockBatch { blocks: Seq<(BlockId, BlockView)> },
    GetBlockFromStorage { hash: BlockId },
    AddToPool { operation: Operation },
}

/// What a list of blocks with their hashes says.
pub open spec fn batch_view(blocks: Seq<(BlockId, Block)>) -> Seq<(BlockId, BlockView)> {
    Seq::new(blocks.len(), |i: int| (blocks[i].0, blocks[i].1@))
}

impl View for ConsensusAction {
    type V = ActionView;

    open spec fn view(&self) -> ActionView {
        match self {
            ConsensusAction::IntegratedBlock { hash, block } => ActionView::IntegratedBlock {
                hash: *hash,
                block: block@,
            },
            ConsensusAction::NotifyBlockAttack { attacker } => ActionView::NotifyBlockAttack {
                attacker: *attacker,
            },
            ConsensusAction::SendWishlistDelta { new, remove } => ActionView::SendWishlistDelta {
                new: new@,
                remove: remove@,
            },
            ConsensusAction::FoundBlock { hash, block } => ActionView::FoundBlock {
                hash: *hash,
                block: block@,
            },
            ConsensusAction::BlockNotFound { hash } => ActionView::BlockNotFound { hash: *hash },
            ConsensusAction::AddBlockBatch { blocks } => ActionView::AddBlockBatch {
                blocks: batch_view(blocks@),
            },
            ConsensusAction::GetBlockFromStorage { hash } => ActionView::GetBlockFromStorage {
                hash: *hash,
            },
            ConsensusAction::AddToPool { operation } => ActionView::AddToPool {
                operation: *operation,
            },
        }
    }
}

/// The identifiers of `a` that `b` does not hold, in the order of `a`.
pub open spec fn without(a: Seq<BlockId>, b: Seq<BlockId>) -> Seq<BlockId> {
    a.filter(|id: BlockId| !holds(b, id))
}

/// The identifiers of `a` that `b` does not hold, in the order of `a`.
pub fn difference(a: &Vec<BlockId>, b: &Vec<BlockId>) -> (out: Vec<BlockId>)
    ensures
        out@ == without(a@, b@),
{
    let ghost keep = |id: BlockId| !holds(b@, id);
    let mut out: Vec<BlockId> = Vec::new();
    let mut i: usize = 0;
    proof {
        assert(a@.take(0) =~= Seq::<BlockId>::empty());
        reveal(Seq::filter);
    }
    while i < a.len()
        invariant
            i <= a@.len(),
            keep == |id: BlockId| !holds(b@, id),
            out@ == a@.take(i as int).filter(keep),
        decreases a@.len() - i,
    {
        proof {
            reveal(Seq::filter);
            assert(a@.take(i + 1).drop_last() =~= a@.take(i as int));
        }
        if !contains_id(b, &a[i]) {
            out.push(a[i]);
        }
        i += 1;
    }
    proof {
        assert(a@.take(i as int) =~= a@);
    }
    out
}

/// Whether `ids` holds `id`.
pub fn contains_id(ids: &Vec<BlockId>, id: &BlockId) -> (found: bool)
    ensures
        found == holds(ids@, *id),
{
    let mut m: usize = 0;
    while m < ids.len()
        invariant
            m <= ids@.len(),
            forall|a: int| 0 <= a < m ==> ids@[a] != *id,
        decreases ids@.len() - m,
    {
        if ids[m].same(id) {
            return true;
        }
        m += 1;
    }
    false
}

/// What `without` holds: what the first holds and the second does not.
pub proof fn lemma_without(a: Seq<BlockId>, b: Seq<BlockId>, id: BlockId)
    ensures
        holds(without(a, b), id) <==> holds(a, id) && !holds(b, id),
    decreases a.len(),
{
    reveal(Seq::filter);
    let keep = |x: BlockId| !holds(b, x);
    if a.len() > 0 {
        lemma_without(a.drop_last(), b, id);
        let rest = without(a.drop_last(), b);
        if holds(a, id) {
            let m = choose|m: int| 0 <= m < a.len() && #[trigger] a[m] == id;
            if m < a.len() - 1 {
                assert(a.drop_last()[m] == id);
            }
        }
        if holds(a.drop_last(), id) {
            let m = choose|m: int| 0 <= m < a.len() - 1 && #[trigger] a.drop_last()[m] == id;
            assert(a[m] == id);
        }
        if keep(a.last()) {
            assert(without(a, b) == rest.push(a.last()));
            if holds(without(a, b), id) {
                let m = choose|m: int|
                    0 <= m < without(a, b).len() && #[trigger] without(a, b)[m] == id;
                if m < rest.len() {
                    assert(rest[m] == id);
                } else {
                    assert(a[a.len() - 1] == id);
                }
            }
            if holds(rest, id) {
                let m = choose|m: int| 0 <= m < rest.len() && #[trigger] rest[m] == id;
                assert(without(a, b)[m] == id);
            }
            if a.last() == id {
                assert(without(a, b)[rest.len() as int] == id);
                assert(a[a.len() - 1] == id);
            }
        } else {
            assert(without(a, b) == rest);
            if a.last() == id {
                assert(a[a.len() - 1] == id);
            }
        }
    }
}

/// Nothing is left of a list without what it holds.
pub proof fn lemma_without_self(a: Seq<BlockId>)
    ensures
        without(a, a).len() == 0,
{
    if without(a, a).len() > 0 {
        let id = without(a, a)[0];
        assert(holds(without(a, a), id));
        lemma_without(a, a, id);
    }
}

/// A wishlist delta turns the wishlist it was computed from into the
/// wishlist it was computed for: what was wanted, with what was added and
/// without what was removed, is what is wanted now.
pub proof fn lemma_wishlist_delta(previous: Seq<BlockId>, current: Seq<BlockId>, id: BlockId)
    ensures
        holds(current, id) <==> (holds(previous, id) || holds(without(current, previous), id))
            && !holds(without(previous, current), id),
{
    lemma_without(current, previous, id);
    lemma_without(previous, current, id);
}

/// Whether `id` is wished for once the deltas between the first `n + 1` of
/// the wishlists `sent` have been applied, one after the other, to an empty
/// wishlist: each delta adds what its wishlist holds and the one before it
/// does not, and removes what the one before it holds and its wishlist
/// does not.
pub open spec fn replayed(sent: Seq<Seq<BlockId>>, n: nat, id: BlockId) -> bool
    decreases n,
{
    if n == 0 {
        false
    } else {
        (replayed(sent, (n - 1) as nat, id) || holds(
            without(sent[n as int], sent[n - 1]),
            id,
        )) && !holds(without(sent[n - 1], sent[n as int]), id)
    }
}

/// The deltas that were ever sent add up to the wishlist that was last
/// sent: `sent` being the wishlists one after the other, from the empty
/// one on, a hash is wished for after all the deltas exactly where the
/// last wishlist holds it.
pub proof fn lemma_wishlist_history(sent: Seq<Seq<BlockId>>, n: nat, id: BlockId)
    requires
        n < sent.len(),
        sent[0].len() == 0,
    ensures
        replayed(sent, n, id) <==> holds(sent[n as int], id),
    decreases n,
{
    if n > 0 {
        lemma_wishlist_history(sent, (n - 1) as nat, id);
        lemma_wishlist_delta(sent[n - 1], sent[n as int], id);
    }
}

/// The latest slot that has begun at `now`, if the genesis instant has
/// come.
pub open spec fn begun(cfg: ConsensusConfig, now: u64) -> Option<Slot> {
    if exists|slot: Slot| latest_begun(cfg, now, slot) {
        Some(choose|slot: Slot| latest_begun(cfg, now, slot))
    } else {
        None
    }
}

/// Why no worker starts on these inputs, if none does.  The faults are
/// looked for in this order: a graph that has not the threads of the
/// configuration; a seed or weights that no selector takes, or weights
/// that are not one for each node; a clock that is unusable; a latest slot
/// after which no slot comes.
pub open spec fn start_fault(
    cfg: ConsensusConfig,
    graph_threads: u8,
    seed: Seq<u8>,
    weights: Seq<u64>,
    now: u64,
) -> Option<ConsensusError> {
    if graph_threads != cfg.thread_count {
        Some(ConsensusError::ConfigError)
    } else if !selector_inputs_ok(seed, weights) || weights.len() != cfg.nodes@.len() {
        Some(ConsensusError::SelectionError)
    } else if !clock_ok(cfg.thread_count, cfg.t0) {
        Some(ConsensusError::TimeOverflowError)
    } else if (match begun(cfg, now) {
        Some(slot) => !slot.has_successor(cfg.thread_count),
        None => false,
    }) {
        Some(ConsensusError::SlotOverflowError)
    } else {
        None
    }
}

/// What the clock answers is the latest slot that has begun: there is at
/// most one, and none before the genesis instant.
pub proof fn lemma_latest_begun(cfg: ConsensusConfig, now: u64, answer: Option<Slot>)
    requires
        match answer {
            None => now < cfg.genesis_timestamp,
            Some(slot) => latest_begun(cfg, now, slot),
        },
    ensures
        begun(cfg, now) == answer,
{
    match answer {
        None => {
            assert forall|slot: Slot| !latest_begun(cfg, now, slot) by {
                let step = cfg.t0 / (cfg.thread_count as u64);
                assert(slot.period * cfg.t0 >= 0 && slot.thread * step >= 0) by (nonlinear_arith);
            }
        },
        Some(slot) => {
            let other = choose|slot: Slot| latest_begun(cfg, now, slot);
            assert(latest_begun(cfg, now, other));
            assert(other.precedes_or_is(slot) && slot.precedes_or_is(other));
        },
    }
}


/// A number that grows from each slot to the next.
pub open spec fn slot_rank(slot: Slot) -> int {
    slot.period * 256 + slot.thread
}

/// How many steps are left from `start` to `end` at most.
pub open spec fn slots_left(start: Slot, end: Slot) -> int {
    if start.precedes(end) {
        slot_rank(end) - slot_rank(start)
    } else {
        0
    }
}

/// The key entitled to `slot`: the genesis key in period 0, else the key of
/// the node that is drawn.
pub open spec fn entitled_key(
    seed: Seq<u8>,
    weights: Seq<u64>,
    genesis: PublicKey,
    nodes: Seq<(PublicKey, crate::signature::PrivateKey)>,
    slot: Slot,
) -> PublicKey {
    if slot.period == 0 {
        genesis
    } else {
        nodes[drawn_index(seed, weights, slot) as int].0
    }
}

/// The slots from `start` up to, not including, `end`, each with the key
/// entitled to it; an error where a slot on the way has no successor.
pub open spec fn selection_draws(
    seed: Seq<u8>,
    weights: Seq<u64>,
    genesis: PublicKey,
    nodes: Seq<(PublicKey, crate::signature::PrivateKey)>,
    thread_count: u8,
    start: Slot,
    end: Slot,
) -> Result<Seq<(Slot, PublicKey)>, ConsensusError>
    decreases slots_left(start, end),
{
    if !start.precedes(end) {
        Ok(Seq::empty())
    } else if !start.has_successor(thread_count) {
        Err(ConsensusError::SlotOverflowError)
    } else {
        match selection_draws(
            seed,
            weights,
            genesis,
            nodes,
            thread_count,
            start.successor(thread_count),
            end,
        ) {
            Ok(rest) => Ok(
                seq![(start, entitled_key(seed, weights, genesis, nodes, start))] + rest,
            ),
            Err(e) => Err(e),
        }
    }
}

/// From a slot to itself there is no slot.
pub proof fn lemma_draws_empty(
    seed: Seq<u8>,
    weights: Seq<u64>,
    genesis: PublicKey,
    nodes: Seq<(PublicKey, crate::signature::PrivateKey)>,
    thread_count: u8,
    slot: Slot,
)
    ensures
        selection_draws(seed, weights, genesis, nodes, thread_count, slot, slot) == Ok::<
            Seq<(Slot, PublicKey)>,
            ConsensusError,
        >(Seq::empty()),
{
}

/// A range that begins at or before the last slot of all and ends behind
/// it cannot be walked: the answer is the slot overflow error.
pub proof fn lemma_draws_overflow(
    seed: Seq<u8>,
    weights: Seq<u64>,
    genesis: PublicKey,
    nodes: Seq<(PublicKey, crate::signature::PrivateKey)>,
    thread_count: u8,
    start: Slot,
    end: Slot,
)
    requires
        thread_count > 0,
        start.thread < thread_count,
        (Slot { period: u64::MAX, thread: (thread_count - 1) as u8 }).precedes(end),
    ensures
        selection_draws(seed, weights, genesis, nodes, thread_count, start, end) == Err::<
            Seq<(Slot, PublicKey)>,
            ConsensusError,
        >(ConsensusError::SlotOverflowError),
    decreases slots_left(start, end),
{
    if start.has_successor(thread_count) {
        lemma_draws_overflow(
            seed,
            weights,
            genesis,
            nodes,
            thread_count,
            start.successor(thread_count),
            end,
        );
    }
}

/// Every slot of period 0 in the answer comes with the genesis key, and
/// every other slot with the key of the node drawn for it.
pub proof fn lemma_draws_keys(
    seed: Seq<u8>,
    weights: Seq<u64>,
    genesis: PublicKey,
    nodes: Seq<(PublicKey, crate::signature::PrivateKey)>,
    thread_count: u8,
    start: Slot,
    end: Slot,
    i: int,
)
    requires
        selection_draws(seed, weights, genesis, nodes, thread_count, start, end) is Ok,
        0 <= i < selection_draws(seed, weights, genesis, nodes, thread_count, start, end)->Ok_0.len(),
    ensures
        ({
            let item = selection_draws(
                seed,
                weights,
                genesis,
                nodes,
                thread_count,
                start,
                end,
            )->Ok_0[i];
            &&& item.1 == entitled_key(seed, weights, genesis, nodes, item.0)
            &&& item.0.period == 0 ==> item.1 == genesis
        }),
    decreases slots_left(start, end),
{
    if start.precedes(end) && start.has_successor(thread_count) {
        if i > 0 {
            lemma_draws_keys(
                seed,
                weights,
                genesis,
                nodes,
                thread_count,
                start.successor(thread_count),
                end,
                i - 1,
            );
        }
    }
}

/// The number of actions that go to the archive in a pass: one where there
/// is an archive.
pub open spec fn archive_actions(has_storage: bool) -> int {
    if has_storage {
        1
    } else {
        0
    }
}

/// Whether `action` tells the archive to keep exactly the final blocks that
/// have left the graph `earlier` on its way to `later`, each once.
pub open spec fn archives(action: ActionView, earlier: &BlockGraph, later: &BlockGraph) -> bool {
    &&& action is AddBlockBatch
    &&& forall|p: int, q: int|
        0 <= p < q < action->blocks.len() ==> (#[trigger] action->blocks[p]).0 != (
        #[trigger] action->blocks[q]).0
    &&& forall|q: int|
        0 <= q < action->blocks.len() ==> earlier.state_of((#[trigger] action->blocks[q]).0) == Some(
            BlockState::Final,
        ) && earlier.block_of(action->blocks[q].0) == Some(action->blocks[q].1) && later.state_of(
            action->blocks[q].0,
        ) is None
    &&& forall|x: int|
        0 <= x < earlier.entries().len() ==> among(
            later.entries(),
            #[trigger] earlier.entries()[x],
        ) || exists|q: int|
            0 <= q < action->blocks.len() && (#[trigger] action->blocks[q]).0
                == earlier.entries()[x].id
}

/// Whether `slot` is the latest slot that has begun at the instant `now`.
pub open spec fn latest_begun(cfg: ConsensusConfig, now: u64, slot: Slot) -> bool {
    &&& slot.thread < cfg.thread_count
    &&& slot_instant(cfg.thread_count, cfg.t0, cfg.genesis_timestamp, slot) <= now
    &&& forall|other: Slot|
        other.thread < cfg.thread_count && #[trigger] slot_instant(
            cfg.thread_count,
            cfg.t0,
            cfg.genesis_timestamp,
            other,
        ) <= now ==> other.precedes_or_is(slot)
}

/// How many of the operations of `pool`, from the first on, a block takes:
/// as many as there are, but no more than `count`, and no more than fit in
/// `size` bytes.
pub open spec fn chosen(pool: Seq<Operation>, count: nat, size: nat) -> nat
    decreases pool.len(),
{
    if pool.len() == 0 || count == 0 || operation_encoding(pool[0]).len() > size {
        0
    } else {
        1 + chosen(
            pool.drop_first(),
            (count - 1) as nat,
            (size - operation_encoding(pool[0]).len()) as nat,
        )
    }
}

/// The operations of `pool` that a block takes.
pub fn choose_operations(pool: &Vec<Operation>, count: u32, size: u32) -> (out: Vec<Operation>)
    ensures
        out@ == pool@.take(chosen(pool@, count as nat, size as nat) as int),
        chosen(pool@, count as nat, size as nat) <= pool@.len(),
{
    let mut out: Vec<Operation> = Vec::new();
    let mut room: u32 = size;
    let mut left: u32 = count;
    let mut i: usize = 0;
    proof {
        assert(pool@.skip(0) =~= pool@);
        assert(pool@.take(0) =~= Seq::<Operation>::empty());
    }
    loop
        invariant
            i <= pool@.len(),
            out@ == pool@.take(i as int),
            chosen(pool@, count as nat, size as nat) == i + chosen(
                pool@.skip(i as int),
                left as nat,
                room as nat,
            ),
        ensures
            out@ == pool@.take(chosen(pool@, count as nat, size as nat) as int),
            chosen(pool@, count as nat, size as nat) <= pool@.len(),
        decreases pool@.len() - i,
    {
        if i >= pool.len() || left == 0 {
            break;
        }
        let mut bytes: Vec<u8> = Vec::new();
        pool[i].serialize(&mut bytes);
        assert(bytes@ =~= operation_encoding(pool@[i as int]));
        assert(pool@.skip(i as int)[0] == pool@[i as int]);
        if bytes.len() > room as usize {
            break;
        }
        proof {
            assert(pool@.skip(i as int).drop_first() =~= pool@.skip(i + 1));
            assert(pool@.take(i + 1) =~= pool@.take(i as int).push(pool@[i as int]));
        }
        out.push(pool[i]);
        room = room - bytes.len() as u32;
        left = left - 1;
        i += 1;
    }
    out
}

/// The consensus worker.
pub struct ConsensusWorker {
    cfg: ConsensusConfig,
    genesis_public_key: PublicKey,
    has_storage: bool,
    block_db: BlockGraph,
    selector: RandomSelector,
    previous_slot: Option<Slot>,
    next_slot: Slot,
    wishlist: Vec<BlockId>,
}

impl ConsensusWorker {
    /// The configuration.
    pub closed spec fn cfg(&self) -> ConsensusConfig {
        self.cfg
    }

    /// The key that signed the genesis blocks.
    pub closed spec fn genesis_public_key(&self) -> PublicKey {
        self.genesis_public_key
    }

    /// Whether there is an archive.
    pub closed spec fn has_storage(&self) -> bool {
        self.has_storage
    }

    /// The block graph.
    pub closed spec fn block_db(&self) -> BlockGraph {
        self.block_db
    }

    /// The selector.
    pub closed spec fn selector(&self) -> RandomSelector {
        self.selector
    }

    /// The latest slot that has begun.
    pub closed spec fn previous_slot(&self) -> Option<Slot> {
        self.previous_slot
    }

    /// The slot that begins next.
    pub closed spec fn next_slot(&self) -> Slot {
        self.next_slot
    }

    /// The wishlist that was last sent to the peers.
    pub closed spec fn wishlist(&self) -> Seq<BlockId> {
        self.wishlist@
    }

    /// The invariant of the worker: the graph is in order and has the
    /// threads of the configuration, the selector has one weight for each
    /// node, and the wishlist names no hash twice.
    pub open spec fn wf(&self) -> bool {
        &&& self.block_db().wf()
        &&& self.block_db().thread_count() == self.cfg().thread_count
        &&& self.selector().weights().len() == self.cfg().nodes@.len()
        &&& distinct(self.wishlist())
    }

    /// Whether `self` and `earlier` differ at most in the graph and in the
    /// wishlist that was last sent.
    pub open spec fn same_but_graph(&self, earlier: &ConsensusWorker) -> bool {
        &&& self.cfg() == earlier.cfg()
        &&& self.genesis_public_key() == earlier.genesis_public_key()
        &&& self.has_storage() == earlier.has_storage()
        &&& self.selector() == earlier.selector()
        &&& self.previous_slot() == earlier.previous_slot()
        &&& self.next_slot() == earlier.next_slot()
    }

    /// What the pass after a change ensures, `graph` being the graph before
    /// the pass, `sent` the wishlist that was last sent before it, and
    /// `actions` what the pass emits.
    ///
    /// Nothing is left to propagate, to report or to evict, and the
    /// wishlist that was last sent is the wishlist of the graph, before the
    /// pass and after it.  Of the entries exactly those have left that were
    /// final blocks old enough to leave; where there was none, the entries
    /// are as they were.  The actions are, in this order: where there is an
    /// archive, the batch of the final blocks that left the graph; one
    /// integrated block for each block that was queued for propagation, in
    /// the order of the queue; one attack notice for each attack that was
    /// queued; and, where it is not empty, the wishlist delta, whose added
    /// hashes are those wanted now and not sent before, and whose removed
    /// hashes are those sent before and not wanted now.  Where the delta is
    /// empty, the wishlist that was last sent is the one of before.
    #[verifier::opaque]
    pub open spec fn passed(
        &self,
        graph: &BlockGraph,
        sent: Seq<BlockId>,
        actions: Seq<ConsensusAction>,
    ) -> bool {
        let db = self.block_db();
        let first = archive_actions(self.has_storage());
        let queued = graph.to_propagate().len() as int;
        let attacks = graph.attack_attempts().len() as int;
        let added = without(self.wishlist(), sent);
        let dropped = without(sent, self.wishlist());
        let delta = added.len() > 0 || dropped.len() > 0;
        &&& self.wf()
        &&& db.same_settings(graph)
        &&& db.latest_final() == graph.latest_final()
        &&& db.cliques() == graph.cliques()
        &&& db.to_propagate().len() == 0
        &&& db.attack_attempts().len() == 0
        &&& forall|j: int| !db.disposable(Sweep::Evict, j)
        &&& forall|y: int|
            0 <= y < db.entries().len() ==> among(graph.entries(), #[trigger] db.entries()[y])
        &&& forall|x: int|
            0 <= x < graph.entries().len() ==> (among(
                db.entries(),
                #[trigger] graph.entries()[x],
            ) <==> !graph.evictable(x))
        &&& (forall|x: int| !graph.evictable(x)) ==> db.entries() == graph.entries()
        &&& forall|id: BlockId| wanted(db.entries(), id) <==> wanted(graph.entries(), id)
        &&& forall|id: BlockId| holds(self.wishlist(), id) <==> wanted(db.entries(), id)
        &&& !delta ==> self.wishlist() == sent
        &&& actions.len() == first + queued + attacks + if delta {
            1int
        } else {
            0int
        }
        &&& self.has_storage() ==> archives(actions[0]@, graph, &db)
        &&& forall|q: int|
            0 <= q < queued ==> (#[trigger] actions[first + q])@ == (ActionView::IntegratedBlock {
                hash: graph.to_propagate()[q],
                block: graph.block_of(graph.to_propagate()[q])->0,
            })
        &&& forall|a: int|
            0 <= a < attacks ==> (#[trigger] actions[first + queued + a])@ == (
            ActionView::NotifyBlockAttack { attacker: graph.attack_attempts()[a] })
        &&& delta ==> actions[first + queued + attacks]@ == (ActionView::SendWishlistDelta {
            new: added,
            remove: dropped,
        })
    }

    /// The pass tells the peers of every block that was queued for
    /// propagation: for each there is an action that says that the block has
    /// been integrated, and carries the block.
    pub proof fn lemma_queued_is_told(
        &self,
        graph: &BlockGraph,
        sent: Seq<BlockId>,
        actions: Seq<ConsensusAction>,
        id: BlockId,
    )
        requires
            self.passed(graph, sent, actions),
            holds(graph.to_propagate(), id),
        ensures
            exists|e: int|
                0 <= e < actions.len() && (#[trigger] actions[e])@ == (ActionView::IntegratedBlock {
                    hash: id,
                    block: graph.block_of(id)->0,
                }),
    {
        reveal(ConsensusWorker::passed);
        let q = choose|q: int|
            0 <= q < graph.to_propagate().len() && #[trigger] graph.to_propagate()[q] == id;
        let first = archive_actions(self.has_storage());
        assert(actions[first + q]@ == (ActionView::IntegratedBlock {
            hash: graph.to_propagate()[q],
            block: graph.block_of(graph.to_propagate()[q])->0,
        }));
    }

    /// A block that the verdict integrates is told, as it was handed in, in
    /// the pass that follows, unless it became active and lost to a block
    /// that became final in the same call: `before` is the graph that took
    /// the block in, which had no header for its hash, and `graph` the graph
    /// that it has become.
    pub proof fn lemma_integrated_is_told(
        &self,
        before: &BlockGraph,
        graph: &BlockGraph,
        id: BlockId,
        creator: PublicKey,
        h: HeaderView,
        operations: Seq<Operation>,
        out: Admission,
        sent: Seq<BlockId>,
        actions: Seq<ConsensusAction>,
    )
        requires
            before.header_of(id) is None,
            graph.admitted(before, id, creator, Admission::Integrated, out),
            graph.stored(before, id, h, Some(operations), out),
            self.passed(graph, sent, actions),
        ensures
            out == Admission::Integrated || out == Admission::Discarded(RejectReason::Incompatible),
            out == Admission::Integrated ==> exists|e: int|
                0 <= e < actions.len() && (#[trigger] actions[e])@ == (ActionView::IntegratedBlock {
                    hash: id,
                    block: BlockView { header: h, operations },
                }),
            out != Admission::Integrated ==> lost_to_final(
                before.entries(),
                graph.entries(),
                id,
                h,
            ),
    {
        assert(allowed(Admission::Integrated, out) && (out == Admission::Integrated ==> holds(
            graph.to_propagate(),
            id,
        )) && (out != Admission::Integrated ==> lost_to_final(
            before.entries(),
            graph.entries(),
            id,
            graph.header_of(id)->0,
        ))) by {
            reveal(BlockGraph::admitted);
        }
        if out == Admission::Integrated {
            graph.lemma_integrated_block(before, id, creator, h, operations, Admission::Integrated);
            self.lemma_queued_is_told(graph, sent, actions, id);
        }
    }

    /// The pass tells the peers of no block but those that were queued for
    /// propagation, and these were active or final before the pass.  So a
    /// hash that is discarded is never told.
    pub proof fn lemma_told_was_queued(
        &self,
        graph: &BlockGraph,
        sent: Seq<BlockId>,
        actions: Seq<ConsensusAction>,
        e: int,
        hash: BlockId,
        block: BlockView,
    )
        requires
            graph.wf(),
            self.passed(graph, sent, actions),
            0 <= e < actions.len(),
            actions[e]@ == (ActionView::IntegratedBlock { hash, block }),
        ensures
            holds(graph.to_propagate(), hash),
            graph.state_of(hash) == Some(BlockState::Active) || graph.state_of(hash) == Some(
                BlockState::Final,
            ),
            graph.block_of(hash) == Some(block),
    {
        reveal(ConsensusWorker::passed);
        let first = archive_actions(self.has_storage());
        let queued = graph.to_propagate().len() as int;
        let attacks = graph.attack_attempts().len() as int;
        if e < first {
            assert(actions[0]@ is AddBlockBatch);
        } else if e < first + queued {
            let q = e - first;
            assert(actions[first + q]@ == (ActionView::IntegratedBlock {
                hash: graph.to_propagate()[q],
                block: graph.block_of(graph.to_propagate()[q])->0,
            }));
            graph.lemma_queue_settled(q);
            graph.lemma_block_of(graph.to_propagate()[q]);
        } else if e < first + queued + attacks {
            let a = e - first - queued;
            assert(actions[first + queued + a]@ is NotifyBlockAttack);
        } else {
            assert(actions[first + queued + attacks]@ is SendWishlistDelta);
        }
    }

    /// Where no final block is old enough to leave, the entries stay as
    /// they are in a pass, and the archive, where there is one, gets an
    /// empty batch.
    pub proof fn lemma_nothing_archived(
        &self,
        graph: &BlockGraph,
        sent: Seq<BlockId>,
        actions: Seq<ConsensusAction>,
    )
        requires
            self.passed(graph, sent, actions),
            forall|x: int| !graph.evictable(x),
        ensures
            self.block_db().entries() == graph.entries(),
            self.has_storage() ==> actions[0]@ is AddBlockBatch && actions[0]@->blocks.len() == 0,
    {
        reveal(ConsensusWorker::passed);
        if self.has_storage() {
            let batch = actions[0]@->blocks;
            if batch.len() > 0 {
                assert(graph.state_of(batch[0].0) == Some(BlockState::Final));
                assert(self.block_db().state_of(batch[0].0) is None);
            }
        }
    }

    /// A pass over a graph that has nothing to propagate, to report or to
    /// evict, and whose wishlist is the one that was last sent, does
    /// nothing: the entries and the wishlist stay, no delta is sent, and
    /// the archive, where there is one, gets an empty batch.
    pub proof fn lemma_quiet_pass(
        &self,
        graph: &BlockGraph,
        sent: Seq<BlockId>,
        actions: Seq<ConsensusAction>,
    )
        requires
            self.passed(graph, sent, actions),
            graph.to_propagate().len() == 0,
            graph.attack_attempts().len() == 0,
            forall|x: int| !graph.evictable(x),
            forall|id: BlockId| holds(sent, id) <==> wanted(graph.entries(), id),
        ensures
            self.block_db().entries() == graph.entries(),
            self.wishlist() == sent,
            actions.len() == archive_actions(self.has_storage()),
            self.has_storage() ==> actions[0]@ is AddBlockBatch && actions[0]@->blocks.len() == 0,
    {
        reveal(ConsensusWorker::passed);
        let added = without(self.wishlist(), sent);
        let dropped = without(sent, self.wishlist());
        if added.len() > 0 {
            assert(holds(added, added[0]));
            lemma_without(self.wishlist(), sent, added[0]);
        }
        if dropped.len() > 0 {
            assert(holds(dropped, dropped[0]));
            lemma_without(sent, self.wishlist(), dropped[0]);
        }
        self.lemma_nothing_archived(graph, sent, actions);
    }

    /// Whether a pass would find nothing to do: nothing is queued for
    /// propagation or to be reported, no final block is old enough to
    /// leave, and the wishlist that was last sent is the wishlist of the
    /// graph.
    pub open spec fn idle(&self) -> bool {
        &&& self.block_db().to_propagate().len() == 0
        &&& self.block_db().attack_attempts().len() == 0
        &&& forall|x: int| !self.block_db().evictable(x)
        &&& forall|id: BlockId| holds(self.wishlist(), id) <==> wanted(self.block_db().entries(), id)
    }

    /// A pass leaves nothing to do.
    pub proof fn lemma_pass_leaves_idle(
        &self,
        graph: &BlockGraph,
        sent: Seq<BlockId>,
        actions: Seq<ConsensusAction>,
    )
        requires
            self.passed(graph, sent, actions),
        ensures
            self.idle(),
    {
        reveal(ConsensusWorker::passed);
        let db = self.block_db();
        assert forall|x: int| !db.evictable(x) by {
            assert(!db.disposable(Sweep::Evict, x));
        }
    }

    /// Handing in again a block that is active or final changes nothing
    /// and sends nothing, where nothing was left to do before: the entries
    /// and the wishlist stay, no block is told, no delta is sent, and the
    /// archive, where there is one, gets an empty batch.
    pub proof fn lemma_known_block_is_ignored(
        &self,
        earlier: &ConsensusWorker,
        hash: BlockId,
        block: Block,
        actions: Seq<ConsensusAction>,
    )
        requires
            earlier.wf(),
            earlier.idle(),
            earlier.block_db().state_of(hash) == Some(BlockState::Active)
                || earlier.block_db().state_of(hash) == Some(BlockState::Final),
            self.handled(earlier, ProtocolEvent::ReceivedBlock { hash, block }, actions),
        ensures
            self.block_db().entries() == earlier.block_db().entries(),
            self.wishlist() == earlier.wishlist(),
            actions.len() == archive_actions(self.has_storage()),
            self.has_storage() ==> actions[0]@ is AddBlockBatch && actions[0]@->blocks.len() == 0,
    {
        let db = earlier.block_db();
        let expected = db.verdict(
            hash,
            block.header@,
            Some(block.operations@),
            earlier.selector().spec_draw(block.header@.slot),
            earlier.previous_slot(),
        );
        db.lemma_resubmission(
            hash,
            block.header@,
            Some(block.operations@),
            earlier.selector().spec_draw(block.header@.slot),
            earlier.previous_slot(),
        );
        let (graph, out) = choose|graph: BlockGraph, out: Admission|
            #![trigger graph.admitted(&db, hash, block.header.creator, expected, out)]
            graph.admitted(&db, hash, block.header.creator, expected, out) && graph.stored(
                &db,
                hash,
                block.header@,
                Some(block.operations@),
                out,
            ) && self.passed(&graph, earlier.wishlist(), actions);
        assert(graph == db) by {
            reveal(BlockGraph::admitted);
        }
        self.lemma_quiet_pass(&graph, earlier.wishlist(), actions);
    }

    /// A second pass with no change in between does nothing.
    pub proof fn lemma_second_pass(
        &self,
        first: &ConsensusWorker,
        graph: &BlockGraph,
        sent: Seq<BlockId>,
        told: Seq<ConsensusAction>,
        actions: Seq<ConsensusAction>,
    )
        requires
            first.passed(graph, sent, told),
            self.passed(&first.block_db(), first.wishlist(), actions),
        ensures
            self.block_db().entries() == first.block_db().entries(),
            self.wishlist() == first.wishlist(),
            actions.len() == archive_actions(self.has_storage()),
            self.has_storage() ==> actions[0]@ is AddBlockBatch && actions[0]@->blocks.len() == 0,
    {
        reveal(ConsensusWorker::passed);
        let db = first.block_db();
        assert forall|x: int| !db.evictable(x) by {
            assert(!db.disposable(Sweep::Evict, x));
        }
        self.lemma_quiet_pass(&db, first.wishlist(), actions);
    }

    /// The wishlist delta of a pass, by the graph before the pass: a hash
    /// is added where the graph wants it and it was not sent before, and
    /// removed where it was sent before and the graph wants it no more.  A
    /// delta is sent exactly where there is such a hash; it is the last
    /// action of the pass.
    pub proof fn lemma_delta(
        &self,
        graph: &BlockGraph,
        sent: Seq<BlockId>,
        actions: Seq<ConsensusAction>,
    )
        requires
            self.passed(graph, sent, actions),
        ensures
            ({
                let rest = archive_actions(self.has_storage()) + graph.to_propagate().len()
                    + graph.attack_attempts().len();
                let added = without(self.wishlist(), sent);
                let dropped = without(sent, self.wishlist());
                &&& forall|id: BlockId|
                    holds(added, id) <==> wanted(graph.entries(), id) && !holds(sent, id)
                &&& forall|id: BlockId|
                    holds(dropped, id) <==> holds(sent, id) && !wanted(graph.entries(), id)
                &&& if exists|id: BlockId| wanted(graph.entries(), id) != holds(sent, id) {
                    actions.len() == rest + 1 && actions[rest]@ == (ActionView::SendWishlistDelta {
                        new: added,
                        remove: dropped,
                    })
                } else {
                    actions.len() == rest
                }
            }),
    {
        reveal(ConsensusWorker::passed);
        let added = without(self.wishlist(), sent);
        let dropped = without(sent, self.wishlist());
        assert forall|id: BlockId|
            holds(added, id) <==> wanted(graph.entries(), id) && !holds(sent, id) by {
            lemma_without(self.wishlist(), sent, id);
        }
        assert forall|id: BlockId|
            holds(dropped, id) <==> holds(sent, id) && !wanted(graph.entries(), id) by {
            lemma_without(sent, self.wishlist(), id);
        }
        if exists|id: BlockId| wanted(graph.entries(), id) != holds(sent, id) {
            let id = choose|id: BlockId| wanted(graph.entries(), id) != holds(sent, id);
            assert(holds(added, id) || holds(dropped, id));
        } else {
            if added.len() > 0 {
                assert(holds(added, added[0]));
            }
            if dropped.len() > 0 {
                assert(holds(dropped, dropped[0]));
            }
        }
    }

    /// The wishlist delta after a header or a block that is left waiting,
    /// `before` being the graph that took it in, `graph` the graph that it
    /// has become, and `sent` the wishlist of `before`, as last sent: added
    /// are the parents of the block that the graph lacked and did not want
    /// yet, and removed is the hash of the block where it was wanted.
    pub proof fn lemma_waiting_delta(
        &self,
        before: &BlockGraph,
        graph: &BlockGraph,
        id: BlockId,
        creator: PublicKey,
        h: HeaderView,
        operations: Option<Seq<Operation>>,
        expected: Admission,
        sent: Seq<BlockId>,
        actions: Seq<ConsensusAction>,
        x: BlockId,
    )
        requires
            before.wf(),
            graph.admitted(before, id, creator, expected, Admission::Waiting),
            graph.stored(before, id, h, operations, Admission::Waiting),
            self.passed(graph, sent, actions),
            forall|y: BlockId| holds(sent, y) <==> wanted(before.entries(), y),
        ensures
            holds(without(self.wishlist(), sent), x) <==> x != id && missing(before.entries(), x)
                && named_in(graph.header_of(id)->0.parents, x) && !wanted(before.entries(), x),
            holds(without(sent, self.wishlist()), x) <==> x == id && wanted(before.entries(), id),
    {
        self.lemma_delta(graph, sent, actions);
        graph.lemma_waiting_wishes(before, id, creator, h, operations, expected, x);
        graph.lemma_waiting_wishes(before, id, creator, h, operations, expected, id);
    }

    /// The wishlist delta after a header or a block that is not left
    /// waiting: nothing is added, and the hash of the block is removed
    /// where it was wanted and the graph has taken the block in or
    /// discarded it.
    pub proof fn lemma_arrival_delta(
        &self,
        before: &BlockGraph,
        graph: &BlockGraph,
        id: BlockId,
        creator: PublicKey,
        expected: Admission,
        out: Admission,
        sent: Seq<BlockId>,
        actions: Seq<ConsensusAction>,
    )
        requires
            before.wf(),
            graph.admitted(before, id, creator, expected, out),
            out != Admission::Waiting,
            self.passed(graph, sent, actions),
            forall|y: BlockId| holds(sent, y) <==> wanted(before.entries(), y),
        ensures
            without(self.wishlist(), sent).len() == 0,
            out != Admission::AlreadyKnown && out != Admission::FutureSlot && holds(sent, id)
                ==> holds(without(sent, self.wishlist()), id),
    {
        self.lemma_delta(graph, sent, actions);
        let added = without(self.wishlist(), sent);
        if added.len() > 0 {
            assert(holds(added, added[0]));
            graph.lemma_wishes_shrink(before, id, creator, expected, out, added[0]);
        }
        graph.lemma_wishes_shrink(before, id, creator, expected, out, id);
    }

    /// A final block that is old enough to leave is, after a pass, out of
    /// the memory, and in the batch for the archive where there is one.
    pub proof fn lemma_archived(
        &self,
        graph: &BlockGraph,
        sent: Seq<BlockId>,
        actions: Seq<ConsensusAction>,
        x: int,
    )
        requires
            self.passed(graph, sent, actions),
            graph.wf(),
            graph.evictable(x),
        ensures
            self.block_db().state_of(graph.entries()[x].id) is None,
            self.has_storage() ==> actions[0]@ is AddBlockBatch && exists|q: int|
                0 <= q < actions[0]@->blocks.len() && (#[trigger] actions[0]@->blocks[q]).0
                    == graph.entries()[x].id,
    {
        reveal(ConsensusWorker::passed);
        let db = self.block_db();
        let e = graph.entries()[x];
        assert(!among(db.entries(), e));
        if position(db.entries(), e.id) is Some {
            let y = position(db.entries(), e.id)->0;
            assert(among(graph.entries(), db.entries()[y]));
            let z = choose|z: int|
                0 <= z < graph.entries().len() && #[trigger] graph.entries()[z] == db.entries()[y];
            if z < x {
                assert(graph.entries()[z].id != graph.entries()[x].id);
            } else if x < z {
                assert(graph.entries()[x].id != graph.entries()[z].id);
            }
        }
    }

    /// The pass after a change of the graph: evicts the final blocks that
    /// are old enough and hands them to the archive, hands the blocks that
    /// became active to the peers, reports the attacks, and sends the
    /// wishlist delta.  The queues are emptied before the eviction, so that
    /// a block that is announced in this pass does not stay for the next
    /// one to evict: a second pass changes nothing.
    pub fn block_db_changed(&mut self) -> (actions: Vec<ConsensusAction>)
        requires
            old(self).wf(),
        ensures
            final(self).wf(),
            final(self).same_but_graph(old(self)),
            final(self).passed(&old(self).block_db(), old(self).wishlist(), actions@),
    {
        proof {
            reveal(ConsensusWorker::passed);
        }
        let mut actions: Vec<ConsensusAction> = Vec::new();
        let ghost graph = self.block_db;
        let blocks = self.block_db.get_blocks_to_propagate();
        let attacks = self.block_db.get_attack_attempts();
        let ghost drained = self.block_db;
        let discarded_final_blocks = self.block_db.prune();
        let ghost pruned = self.block_db;
        proof {
            assert forall|x: int| graph.evictable(x) == drained.disposable(Sweep::Evict, x) by {}
            assert forall|j: int| !pruned.disposable(Sweep::Evict, j) by {}
            if forall|x: int| !graph.evictable(x) {
                assert forall|j: int| 0 <= j < drained.entries().len() implies !drained.disposable(
                    Sweep::Evict,
                    j,
                ) by {
                    assert(!graph.evictable(j));
                }
                assert(discarded_final_blocks@.len() == 0);
            }
        }
        if self.has_storage {
            let ghost batch = discarded_final_blocks@;
            actions.push(ConsensusAction::AddBlockBatch { blocks: discarded_final_blocks });
            proof {
                let action = actions@[0]@;
                assert(action->blocks == batch_view(batch));
                assert forall|p: int, q: int| 0 <= p < q < action->blocks.len() implies (
                #[trigger] action->blocks[p]).0 != (#[trigger] action->blocks[q]).0 by {
                    assert(action->blocks[p].0 == batch[p].0);
                    assert(action->blocks[q].0 == batch[q].0);
                }
                assert forall|q: int| 0 <= q < action->blocks.len() implies graph.state_of(
                    (#[trigger] action->blocks[q]).0,
                ) == Some(BlockState::Final) && graph.block_of(action->blocks[q].0) == Some(
                    action->blocks[q].1,
                ) && pruned.state_of(action->blocks[q].0) is None by {
                    assert(action->blocks[q].0 == batch[q].0);
                    assert(action->blocks[q].1 == batch[q].1@);
                }
                assert forall|x: int| 0 <= x < graph.entries().len() implies among(
                    pruned.entries(),
                    #[trigger] graph.entries()[x],
                ) || exists|q: int|
                    0 <= q < action->blocks.len() && (#[trigger] action->blocks[q]).0
                        == graph.entries()[x].id by {
                    if !among(pruned.entries(), graph.entries()[x]) {
                        let q = choose|q: int|
                            0 <= q < batch.len() && (#[trigger] batch[q]).0
                                == graph.entries()[x].id;
                        assert(action->blocks[q].0 == graph.entries()[x].id);
                    }
                }
                assert(archives(action, &graph, &pruned));
            }
        }
        let ghost first = actions@.len() as int;
        let mut q: usize = 0;
        while q < blocks.len()
            invariant
                q <= blocks@.len(),
                actions@.len() == first + q,
                blocks@.len() == graph.to_propagate().len(),
                first == archive_actions(self.has_storage),
                self.has_storage ==> archives(actions@[0]@, &graph, &pruned),
                forall|a: int|
                    0 <= a < blocks@.len() ==> (#[trigger] blocks@[a]).0 == graph.to_propagate()[a]
                        && graph.block_of(blocks@[a].0) == Some(blocks@[a].1@),
                forall|a: int|
                    0 <= a < q ==> (#[trigger] actions@[first + a])@ == (
                    ActionView::IntegratedBlock {
                        hash: graph.to_propagate()[a],
                        block: graph.block_of(graph.to_propagate()[a])->0,
                    }),
            decreases blocks@.len() - q,
        {
            let ghost before = actions@;
            actions.push(
                ConsensusAction::IntegratedBlock {
                    hash: blocks[q].0,
                    block: blocks[q].1.duplicate(),
                },
            );
            proof {
                assert forall|a: int| 0 <= a < q + 1 implies (#[trigger] actions@[first + a])@ == (
                ActionView::IntegratedBlock {
                    hash: graph.to_propagate()[a],
                    block: graph.block_of(graph.to_propagate()[a])->0,
                }) by {
                    if a < q {
                        assert(actions@[first + a] == before[first + a]);
                    }
                }
                if self.has_storage {
                    assert(actions@[0] == before[0]);
                }
            }
            q += 1;
        }
        let ghost queued = blocks@.len() as int;
        let mut a: usize = 0;
        while a < attacks.len()
            invariant
                a <= attacks@.len(),
                actions@.len() == first + queued + a,
                attacks@ == graph.attack_attempts(),
                queued == graph.to_propagate().len(),
                first == archive_actions(self.has_storage),
                self.has_storage ==> archives(actions@[0]@, &graph, &pruned),
                forall|b: int|
                    0 <= b < queued ==> (#[trigger] actions@[first + b])@ == (
                    ActionView::IntegratedBlock {
                        hash: graph.to_propagate()[b],
                        block: graph.block_of(graph.to_propagate()[b])->0,
                    }),
                forall|b: int|
                    0 <= b < a ==> (#[trigger] actions@[first + queued + b])@ == (
                    ActionView::NotifyBlockAttack { attacker: graph.attack_attempts()[b] }),
            decreases attacks@.len() - a,
        {
            let ghost before = actions@;
            actions.push(ConsensusAction::NotifyBlockAttack { attacker: attacks[a] });
            proof {
                assert forall|b: int| 0 <= b < queued implies (#[trigger] actions@[first + b])@ == (
                ActionView::IntegratedBlock {
                    hash: graph.to_propagate()[b],
                    block: graph.block_of(graph.to_propagate()[b])->0,
                }) by {
                    assert(actions@[first + b] == before[first + b]);
                }
                assert forall|b: int|
                    0 <= b < a + 1 implies (#[trigger] actions@[first + queued + b])@ == (
                ActionView::NotifyBlockAttack { attacker: graph.attack_attempts()[b] }) by {
                    if b < a {
                        assert(actions@[first + queued + b] == before[first + queued + b]);
                    }
                }
                if self.has_storage {
                    assert(actions@[0] == before[0]);
                }
            }
            a += 1;
        }
        let new_wishlist = self.block_db.get_block_wishlist();
        let new_blocks = difference(&new_wishlist, &self.wishlist);
        let remove_blocks = difference(&self.wishlist, &new_wishlist);
        if new_blocks.len() > 0 || remove_blocks.len() > 0 {
            let ghost before = actions@;
            actions.push(ConsensusAction::SendWishlistDelta { new: new_blocks, remove: remove_blocks });
            proof {
                assert forall|b: int| 0 <= b < queued implies (#[trigger] actions@[first + b])@ == (
                ActionView::IntegratedBlock {
                    hash: graph.to_propagate()[b],
                    block: graph.block_of(graph.to_propagate()[b])->0,
                }) by {
                    assert(actions@[first + b] == before[first + b]);
                }
                assert forall|b: int|
                    0 <= b < attacks@.len() implies (#[trigger] actions@[first + queued + b])@ == (
                ActionView::NotifyBlockAttack { attacker: graph.attack_attempts()[b] }) by {
                    assert(actions@[first + queued + b] == before[first + queued + b]);
                }
                if self.has_storage {
                    assert(actions@[0] == before[0]);
                }
            }
            self.wishlist = new_wishlist;
        } else {
            proof {
                let sent = self.wishlist@;
                assert forall|id: BlockId| holds(sent, id) <==> holds(new_wishlist@, id) by {
                    lemma_without(new_wishlist@, sent, id);
                    lemma_without(sent, new_wishlist@, id);
                    if holds(without(new_wishlist@, sent), id) || holds(
                        without(sent, new_wishlist@),
                        id,
                    ) {
                    }
                }
                lemma_without_self(sent);
            }
        }
        actions
    }

    /// What is learned between the construction of a worker and its first
    /// input: the graph, whether there is an archive, the seed and the
    /// weights of the selector, and the clock.
    pub open spec fn fresh(
        &self,
        cfg: ConsensusConfig,
        has_storage: bool,
        block_db: BlockGraph,
        seed: Seq<u8>,
        weights: Seq<u64>,
        now: u64,
    ) -> bool {
        &&& self.wf()
        &&& self.cfg() == cfg
        &&& self.has_storage() == has_storage
        &&& self.block_db() == block_db
        &&& self.wishlist().len() == 0
        &&& self.genesis_public_key()@ == ed25519_public_key(cfg.genesis_key@)
        &&& self.selector().seed() == seed
        &&& self.selector().weights() == weights
        &&& match self.previous_slot() {
            None => now < cfg.genesis_timestamp && self.next_slot() == (Slot {
                period: 0,
                thread: 0,
            }),
            Some(slot) => {
                &&& latest_begun(cfg, now, slot)
                &&& slot.has_successor(cfg.thread_count)
                &&& self.next_slot() == slot.successor(cfg.thread_count)
            },
        }
    }

    /// Two workers that were started with one configuration, one seed and
    /// the same weights draw alike, whenever and on whatever graph they
    /// were started: the selector of each draws the same index for every
    /// slot, and each answers a request for draws as the other does.
    pub proof fn lemma_agreement(
        &self,
        other: &ConsensusWorker,
        cfg: ConsensusConfig,
        seed: Seq<u8>,
        weights: Seq<u64>,
        start: Slot,
        end: Slot,
    )
        requires
            self.cfg() == cfg,
            other.cfg() == cfg,
            self.selector().seed() == seed,
            other.selector().seed() == seed,
            self.selector().weights() == weights,
            other.selector().weights() == weights,
            self.genesis_public_key()@ == ed25519_public_key(cfg.genesis_key@),
            other.genesis_public_key()@ == ed25519_public_key(cfg.genesis_key@),
        ensures
            forall|slot: Slot|
                #[trigger] self.selector().spec_draw(slot) == other.selector().spec_draw(slot),
            self.spec_draws(start, end) == other.spec_draws(start, end),
    {
        assert(self.genesis_public_key().0@ =~= other.genesis_public_key().0@);
        assert(self.genesis_public_key().0 == other.genesis_public_key().0);
    }

    /// Creates a worker at the instant `now`, in milliseconds, with a
    /// selector of the given seed and weights, one weight for each node of
    /// the configuration.  The previous slot is the latest slot that has
    /// begun at `now`, and the next slot the one that follows it, or slot
    /// `(0, 0)` before the genesis instant.  Fails exactly where
    /// `start_fault` names an error, and with that error.
    pub fn new(
        cfg: ConsensusConfig,
        has_storage: bool,
        block_db: BlockGraph,
        seed: &Vec<u8>,
        weights: Vec<u64>,
        now: u64,
    ) -> (out: Result<ConsensusWorker, ConsensusError>)
        requires
            block_db.wf(),
        ensures
            match out {
                Ok(worker) => {
                    &&& start_fault(cfg, block_db.thread_count(), seed@, weights@, now) is None
                    &&& selector_inputs_ok(seed@, weights@)
                    &&& worker.fresh(cfg, has_storage, block_db, seed@, weights@, now)
                },
                Err(e) => start_fault(cfg, block_db.thread_count(), seed@, weights@, now) == Some(
                    e,
                ),
            },
    {
        if block_db.count_threads() != cfg.thread_count {
            return Err(ConsensusError::ConfigError);
        }
        if weights.len() != cfg.nodes.len() {
            return Err(ConsensusError::SelectionError);
        }
        let selector = match RandomSelector::new(seed, cfg.thread_count, weights) {
            Ok(selector) => selector,
            Err(_) => {
                return Err(ConsensusError::SelectionError);
            },
        };
        let previous_slot = match get_latest_block_slot_at_timestamp(
            cfg.thread_count,
            cfg.t0,
            cfg.genesis_timestamp,
            now,
        ) {
            Ok(slot) => slot,
            Err(_) => {
                return Err(ConsensusError::TimeOverflowError);
            },
        };
        proof {
            lemma_latest_begun(cfg, now, previous_slot);
        }
        let next_slot = match previous_slot {
            None => Slot::new(0u64, 0u8),
            Some(slot) => match slot.get_next_slot(cfg.thread_count) {
                Ok(next) => next,
                Err(_) => {
                    return Err(ConsensusError::SlotOverflowError);
                },
            },
        };
        let genesis_public_key = SignatureEngine::new().derive_public_key(&cfg.genesis_key);
        Ok(
            ConsensusWorker {
                cfg,
                genesis_public_key,
                has_storage,
                block_db,
                selector,
                previous_slot,
                next_slot,
                wishlist: Vec::new(),
            },
        )
    }

    /// Whether `out` answers `cmd`: the summary of the graph, the block
    /// asked for where it is active or final, or the draws asked for.
    pub open spec fn answers(&self, cmd: ConsensusCommand, out: ConsensusResponse) -> bool {
        match cmd {
            ConsensusCommand::GetBlockGraphStatus => out matches ConsensusResponse::BlockGraphStatus(
                export,
            ) && self.block_db().shows(export),
            ConsensusCommand::GetActiveBlock { hash } => out matches ConsensusResponse::ActiveBlock(
                found,
            ) && match found {
                Some(block) => self.block_db().block_of(hash) == Some(block@),
                None => self.block_db().block_of(hash) is None,
            },
            ConsensusCommand::GetSelectionDraws {
                start,
                end,
            } => out matches ConsensusResponse::SelectionDraws(draws) && match draws {
                Ok(list) => self.spec_draws(start, end) == Ok::<
                    Seq<(Slot, PublicKey)>,
                    ConsensusError,
                >(list@),
                Err(e) => self.spec_draws(start, end) == Err::<
                    Seq<(Slot, PublicKey)>,
                    ConsensusError,
                >(e),
            },
        }
    }

    /// Answers a command.  The worker stays as it is.
    pub fn process_consensus_command(&self, cmd: ConsensusCommand) -> (out: ConsensusResponse)
        requires
            self.wf(),
        ensures
            self.answers(cmd, out),
    {
        match cmd {
            ConsensusCommand::GetBlockGraphStatus => ConsensusResponse::BlockGraphStatus(
                self.block_db.export(),
            ),
            ConsensusCommand::GetActiveBlock { hash } => {
                let found = self.block_db.get_active_block(&hash);
                proof {
                    self.block_db.lemma_block_of(hash);
                }
                ConsensusResponse::ActiveBlock(found)
            },
            ConsensusCommand::GetSelectionDraws { start, end } => ConsensusResponse::SelectionDraws(
                self.get_selection_draws(start, end),
            ),
        }
    }

    /// What is answered to a peer that asks for the block `hash`: the block
    /// where it is active or final; else the request is handed to the
    /// archive where there is one; else the block is not found.
    pub open spec fn block_answer(&self, hash: BlockId) -> ActionView {
        match self.block_db().block_of(hash) {
            Some(block) => ActionView::FoundBlock { hash, block },
            None => if self.has_storage() {
                ActionView::GetBlockFromStorage { hash }
            } else {
                ActionView::BlockNotFound { hash }
            },
        }
    }

    /// What `process_protocol_event` ensures.  A block or a header is taken
    /// in by the graph under the latest slot that has begun, which then
    /// holds for the hash what `stored` says, and the pass after a change
    /// follows; an operation goes to the pool; a request for a block is
    /// answered as `block_answer` says.
    pub open spec fn handled(
        &self,
        earlier: &ConsensusWorker,
        event: ProtocolEvent,
        actions: Seq<ConsensusAction>,
    ) -> bool {
        &&& self.wf()
        &&& self.same_but_graph(earlier)
        &&& match event {
            ProtocolEvent::ReceivedBlock { hash, block } => exists|
                graph: BlockGraph,
                out: Admission,
            |
                #![trigger graph.admitted(&earlier.block_db(), hash, block.header.creator, earlier.block_db().verdict(hash, block.header@, Some(block.operations@), earlier.selector().spec_draw(block.header@.slot), earlier.previous_slot()), out)]
                graph.admitted(
                    &earlier.block_db(),
                    hash,
                    block.header.creator,
                    earlier.block_db().verdict(
                        hash,
                        block.header@,
                        Some(block.operations@),
                        earlier.selector().spec_draw(block.header@.slot),
                        earlier.previous_slot(),
                    ),
                    out,
                ) && graph.stored(
                    &earlier.block_db(),
                    hash,
                    block.header@,
                    Some(block.operations@),
                    out,
                ) && self.passed(&graph, earlier.wishlist(), actions),
            ProtocolEvent::ReceivedBlockHeader { hash, header } => exists|
                graph: BlockGraph,
                out: Admission,
            |
                #![trigger graph.admitted(&earlier.block_db(), hash, header.creator, earlier.block_db().verdict(hash, header@, None, earlier.selector().spec_draw(header@.slot), earlier.previous_slot()), out)]
                graph.admitted(
                    &earlier.block_db(),
                    hash,
                    header.creator,
                    earlier.block_db().verdict(
                        hash,
                        header@,
                        None,
                        earlier.selector().spec_draw(header@.slot),
                        earlier.previous_slot(),
                    ),
                    out,
                ) && graph.stored(&earlier.block_db(), hash, header@, None, out) && self.passed(
                    &graph,
                    earlier.wishlist(),
                    actions,
                ),
            ProtocolEvent::ReceivedTransaction(operation) => *self == *earlier && actions.len() == 1
                && actions[0]@ == (ActionView::AddToPool { operation }),
            ProtocolEvent::GetBlock(hash) => *self == *earlier && actions.len() == 1 && actions[0]@
                == earlier.block_answer(hash),
        }
    }

    /// Where nothing was queued before a header or a block was taken in,
    /// every block that the pass after it tells was neither active nor
    /// final before, `before` being the graph that took it in and `graph`
    /// the graph that it has become.
    pub proof fn lemma_told_after(
        &self,
        before: &BlockGraph,
        graph: &BlockGraph,
        id: BlockId,
        creator: PublicKey,
        expected: Admission,
        out: Admission,
        sent: Seq<BlockId>,
        actions: Seq<ConsensusAction>,
        e: int,
        hash: BlockId,
        block: BlockView,
    )
        requires
            before.to_propagate().len() == 0,
            graph.admitted(before, id, creator, expected, out),
            self.passed(graph, sent, actions),
            0 <= e < actions.len(),
            actions[e]@ == (ActionView::IntegratedBlock { hash, block }),
        ensures
            before.state_of(hash) != Some(BlockState::Active),
            before.state_of(hash) != Some(BlockState::Final),
    {
        assert(graph.wf() && queue_fresh(
            before.entries(),
            before.to_propagate(),
            graph.to_propagate(),
        )) by {
            reveal(BlockGraph::admitted);
        }
        self.lemma_told_was_queued(graph, sent, actions, e, hash, block);
        assert(!is_settled(before.entries(), hash));
        if position(before.entries(), hash) is Some {
            let i = position(before.entries(), hash)->0;
            if before.entries()[i].settled() {
                assert(is_settled(before.entries(), hash));
            }
        }
    }

    /// No block is told twice, after a block: where nothing was queued
    /// before a block came from the peers, every block that is told after
    /// it was neither active nor final before it.
    pub proof fn lemma_told_is_new_after_block(
        &self,
        earlier: &ConsensusWorker,
        id: BlockId,
        given: Block,
        actions: Seq<ConsensusAction>,
        e: int,
        hash: BlockId,
        block: BlockView,
    )
        requires
            earlier.block_db().to_propagate().len() == 0,
            self.handled(earlier, ProtocolEvent::ReceivedBlock { hash: id, block: given }, actions),
            0 <= e < actions.len(),
            actions[e]@ == (ActionView::IntegratedBlock { hash, block }),
        ensures
            earlier.block_db().state_of(hash) != Some(BlockState::Active),
            earlier.block_db().state_of(hash) != Some(BlockState::Final),
    {
        let db = earlier.block_db();
        let sent = earlier.wishlist();
        let creator = given.header.creator;
        let expected = db.verdict(
            id,
            given.header@,
            Some(given.operations@),
            earlier.selector().spec_draw(given.header@.slot),
            earlier.previous_slot(),
        );
        let (graph, out) = choose|graph: BlockGraph, out: Admission|
            #![trigger graph.admitted(&db, id, creator, expected, out)]
            graph.admitted(&db, id, creator, expected, out) && self.passed(&graph, sent, actions);
        self.lemma_told_after(&db, &graph, id, creator, expected, out, sent, actions, e, hash, block);
    }

    /// No block is told twice, after a header: where nothing was queued
    /// before a header came from the peers, every block that is told after
    /// it was neither active nor final before it.
    pub proof fn lemma_told_is_new_after_header(
        &self,
        earlier: &ConsensusWorker,
        id: BlockId,
        header: BlockHeader,
        actions: Seq<ConsensusAction>,
        e: int,
        hash: BlockId,
        block: BlockView,
    )
        requires
            earlier.block_db().to_propagate().len() == 0,
            self.handled(earlier, ProtocolEvent::ReceivedBlockHeader { hash: id, header }, actions),
            0 <= e < actions.len(),
            actions[e]@ == (ActionView::IntegratedBlock { hash, block }),
        ensures
            earlier.block_db().state_of(hash) != Some(BlockState::Active),
            earlier.block_db().state_of(hash) != Some(BlockState::Final),
    {
        let db = earlier.block_db();
        let sent = earlier.wishlist();
        let creator = header.creator;
        let expected = db.verdict(
            id,
            header@,
            None,
            earlier.selector().spec_draw(header@.slot),
            earlier.previous_slot(),
        );
        let (graph, out) = choose|graph: BlockGraph, out: Admission|
            #![trigger graph.admitted(&db, id, creator, expected, out)]
            graph.admitted(&db, id, creator, expected, out) && self.passed(&graph, sent, actions);
        self.lemma_told_after(&db, &graph, id, creator, expected, out, sent, actions, e, hash, block);
    }

    /// No block is told twice: where nothing was queued before an event
    /// from the peers, every block that is told after it was neither active
    /// nor final before it.
    pub proof fn lemma_told_is_new(
        &self,
        earlier: &ConsensusWorker,
        event: ProtocolEvent,
        actions: Seq<ConsensusAction>,
        e: int,
        hash: BlockId,
        block: BlockView,
    )
        requires
            earlier.block_db().to_propagate().len() == 0,
            self.handled(earlier, event, actions),
            0 <= e < actions.len(),
            actions[e]@ == (ActionView::IntegratedBlock { hash, block }),
        ensures
            earlier.block_db().state_of(hash) != Some(BlockState::Active),
            earlier.block_db().state_of(hash) != Some(BlockState::Final),
    {
        match event {
            ProtocolEvent::ReceivedBlock { hash: id, block: given } => {
                self.lemma_told_is_new_after_block(earlier, id, given, actions, e, hash, block);
            },
            ProtocolEvent::ReceivedBlockHeader { hash: id, header } => {
                self.lemma_told_is_new_after_header(earlier, id, header, actions, e, hash, block);
            },
            _ => {},
        }
    }

    /// Hands a block to the graph, and runs the pass after a change.
    fn receive_block(&mut self, hash: BlockId, block: Block) -> (actions: Vec<ConsensusAction>)
        requires
            old(self).wf(),
        ensures
            final(self).handled(old(self), ProtocolEvent::ReceivedBlock { hash, block }, actions@),
    {
        let ghost creator = block.header.creator;
        let ghost expected = self.block_db.verdict(
            hash,
            block.header@,
            Some(block.operations@),
            self.selector.spec_draw(block.header@.slot),
            self.previous_slot,
        );
        let out = self.block_db.incoming_block(hash, block, &self.selector, self.previous_slot);
        let ghost graph = self.block_db;
        let actions = self.block_db_changed();
        proof {
            assert(graph.admitted(&old(self).block_db(), hash, creator, expected, out));
            assert(graph.stored(
                &old(self).block_db(),
                hash,
                block.header@,
                Some(block.operations@),
                out,
            ));
        }
        actions
    }

    /// Hands a header to the graph, and runs the pass after a change.
    fn receive_header(&mut self, hash: BlockId, header: BlockHeader) -> (actions: Vec<
        ConsensusAction,
    >)
        requires
            old(self).wf(),
        ensures
            final(self).handled(
                old(self),
                ProtocolEvent::ReceivedBlockHeader { hash, header },
                actions@,
            ),
    {
        let ghost creator = header.creator;
        let ghost expected = self.block_db.verdict(
            hash,
            header@,
            None,
            self.selector.spec_draw(header@.slot),
            self.previous_slot,
        );
        let out = self.block_db.incoming_header(hash, header, &self.selector, self.previous_slot);
        let ghost graph = self.block_db;
        let actions = self.block_db_changed();
        proof {
            assert(graph.admitted(&old(self).block_db(), hash, creator, expected, out));
            assert(graph.stored(&old(self).block_db(), hash, header@, None, out));
        }
        actions
    }

    /// Handles what the peer layer tells, and says what is to be sent on.
    pub fn process_protocol_event(&mut self, event: ProtocolEvent) -> (actions: Vec<ConsensusAction>)
        requires
            old(self).wf(),
        ensures
            final(self).handled(old(self), event, actions@),
    {
        match event {
            ProtocolEvent::ReceivedBlock { hash, block } => self.receive_block(hash, block),
            ProtocolEvent::ReceivedBlockHeader { hash, header } => self.receive_header(
                hash,
                header,
            ),
            ProtocolEvent::ReceivedTransaction(operation) => {
                let mut actions: Vec<ConsensusAction> = Vec::new();
                actions.push(ConsensusAction::AddToPool { operation });
                actions
            },
            ProtocolEvent::GetBlock(block_hash) => {
                let mut actions: Vec<ConsensusAction> = Vec::new();
                proof {
                    self.block_db.lemma_block_of(block_hash);
                }
                match self.block_db.get_active_block(&block_hash) {
                    Some(block) => {
                        actions.push(ConsensusAction::FoundBlock { hash: block_hash, block });
                    },
                    None => {
                        if self.has_storage {
                            actions.push(ConsensusAction::GetBlockFromStorage { hash: block_hash });
                        } else {
                            actions.push(ConsensusAction::BlockNotFound { hash: block_hash });
                        }
                    },
                }
                actions
            },
        }
    }

    /// What is answered to a peer that asked for the block `hash` once the
    /// archive has been asked: the block where the archive has it, else that
    /// the block is not found.
    pub fn storage_answer(hash: BlockId, found: Option<Block>) -> (action: ConsensusAction)
        ensures
            action@ == match found {
                Some(block) => ActionView::FoundBlock { hash, block: block@ },
                None => ActionView::BlockNotFound { hash },
            },
    {
        match found {
            Some(block) => ConsensusAction::FoundBlock { hash, block },
            None => ConsensusAction::BlockNotFound { hash },
        }
    }

    /// Whether this node creates the block of `slot`: it creates blocks, the
    /// slot is not of period 0, and the selector draws this node.
    pub open spec fn creates(&self, slot: Slot) -> bool {
        !self.cfg().disable_block_creation && slot.period > 0 && self.selector().spec_draw(slot)
            == self.cfg().current_node_index
    }

    /// What `slot_tick` ensures where it succeeds, `pool` being the
    /// operations on offer.  The next slot has become the previous one and
    /// its successor the next.  Where this node creates the block of the
    /// slot, the block carries the operations that `chosen` takes from the
    /// pool and is signed with the key of this node, and the graph has taken
    /// it in like any other block.  The graph has then been told of the
    /// slot, which leaves its queues, its cliques and its latest final
    /// blocks as they are, and the pass after a change has followed.
    pub open spec fn advanced(
        &self,
        earlier: &ConsensusWorker,
        pool: Seq<Operation>,
        actions: Seq<ConsensusAction>,
    ) -> bool {
        let slot = earlier.next_slot();
        let cfg = earlier.cfg();
        &&& self.wf()
        &&& self.cfg() == cfg
        &&& self.genesis_public_key() == earlier.genesis_public_key()
        &&& self.has_storage() == earlier.has_storage()
        &&& self.selector() == earlier.selector()
        &&& slot.has_successor(cfg.thread_count)
        &&& self.previous_slot() == Some(slot)
        &&& self.next_slot() == slot.successor(cfg.thread_count)
        &&& exists|made: BlockGraph, told: BlockGraph|
            #![trigger told.ticked(&made, slot.period)]
            {
                &&& earlier.grown_by_creation(&made, pool)
                &&& told.wf()
                &&& told.same_settings(&made)
                &&& told.same_frame(&made)
                &&& told.ticked(&made, slot.period)
                &&& self.passed(&told, earlier.wishlist(), actions)
            }
    }

    /// Whether `made` is the graph of `self` after the block of the next
    /// slot, where this node creates it, has been created and taken in.
    pub open spec fn grown_by_creation(&self, made: &BlockGraph, pool: Seq<Operation>) -> bool {
        let slot = self.next_slot();
        let cfg = self.cfg();
        if self.creates(slot) {
            exists|hash: BlockId, block: Block, out: Admission|
                #![trigger made.admitted(&self.block_db(), hash, block.header.creator, self.block_db().verdict(hash, block.header@, Some(block.operations@), self.selector().spec_draw(slot), Some(slot)), out)]
                {
                    &&& self.block_db().created(
                        hash,
                        block@,
                        pool.take(
                            chosen(
                                pool,
                                cfg.max_operations_per_block as nat,
                                cfg.max_block_size as nat,
                            ) as int,
                        ),
                        slot,
                        cfg.nodes@[cfg.current_node_index as int].1,
                    )
                    &&& made.admitted(
                        &self.block_db(),
                        hash,
                        block.header.creator,
                        self.block_db().verdict(
                            hash,
                            block.header@,
                            Some(block.operations@),
                            self.selector().spec_draw(slot),
                            Some(slot),
                        ),
                        out,
                    )
                    &&& made.stored(
                        &self.block_db(),
                        hash,
                        block.header@,
                        Some(block.operations@),
                        out,
                    )
                }
        } else {
            *made == self.block_db()
        }
    }

    /// Handles the beginning of the next slot: creates the block of the
    /// slot where this node is drawn for it, tells the graph of the slot,
    /// and says what is to be sent on.  Fails, and changes nothing, where
    /// the next slot is the last slot of all.
    pub fn slot_tick(&mut self, pool: &Vec<Operation>) -> (out: Result<
        Vec<ConsensusAction>,
        ConsensusError,
    >)
        requires
            old(self).wf(),
        ensures
            match out {
                Ok(actions) => final(self).advanced(old(self), pool@, actions@),
                Err(e) => e == ConsensusError::SlotOverflowError && !old(self).next_slot().has_successor(old(self).cfg().thread_count) && *final(self) == *old(self),
            },
    {
        let cur_slot = self.next_slot;
        let following = match self.next_slot.get_next_slot(self.cfg.thread_count) {
            Ok(slot) => slot,
            Err(_) => {
                return Err(ConsensusError::SlotOverflowError);
            },
        };
        self.previous_slot = Some(cur_slot);
        self.next_slot = following;
        self.create_if_drawn(cur_slot, pool);
        let ghost made = self.block_db;
        self.block_db.slot_tick(Some(cur_slot));
        let ghost told = self.block_db;
        let actions = self.block_db_changed();
        proof {
            assert(old(self).grown_by_creation(&made, pool@));
            assert(told.ticked(&made, cur_slot.period));
            assert(self.passed(&told, old(self).wishlist(), actions@));
        }
        Ok(actions)
    }

    /// Creates the block of `slot` and hands it to the graph, where this
    /// node is drawn for the slot.
    fn create_if_drawn(&mut self, slot: Slot, pool: &Vec<Operation>)
        requires
            old(self).wf(),
            old(self).previous_slot() == Some(slot),
        ensures
            final(self).wf(),
            final(self).same_but_graph(old(self)),
            final(self).wishlist() == old(self).wishlist(),
            (ConsensusWorker { next_slot: slot, ..*old(self) }).grown_by_creation(
                &final(self).block_db(),
                pool@,
            ),
    {
        let block_creator = self.selector.draw(slot);
        if !self.cfg.disable_block_creation && slot.period > 0 && block_creator
            == self.cfg.current_node_index {
            let operations = choose_operations(
                pool,
                self.cfg.max_operations_per_block,
                self.cfg.max_block_size,
            );
            let (hash, block) = self.block_db.create_block(
                operations,
                slot,
                &self.cfg.nodes[block_creator as usize].1,
            );
            let ghost copy = block;
            let ghost expected = self.block_db.verdict(
                hash,
                block.header@,
                Some(block.operations@),
                self.selector.spec_draw(slot),
                Some(slot),
            );
            let out = self.block_db.incoming_block(hash, block, &self.selector, Some(slot));
            proof {
                assert(self.block_db.admitted(
                    &old(self).block_db(),
                    hash,
                    copy.header.creator,
                    expected,
                    out,
                ));
            }
        }
    }

    /// Replaces the selector by the selector of `seed` and `weights`, as is
    /// to be done when the weights change at the beginning of a cycle.
    /// Fails, and changes nothing, unless a selector can be built from them
    /// and there is one weight for each node.
    pub fn set_selection(&mut self, seed: &Vec<u8>, weights: Vec<u64>) -> (out: Result<
        (),
        ConsensusError,
    >)
        requires
            old(self).wf(),
        ensures
            final(self).wf(),
            final(self).cfg() == old(self).cfg(),
            final(self).genesis_public_key() == old(self).genesis_public_key(),
            final(self).has_storage() == old(self).has_storage(),
            final(self).block_db() == old(self).block_db(),
            final(self).previous_slot() == old(self).previous_slot(),
            final(self).next_slot() == old(self).next_slot(),
            final(self).wishlist() == old(self).wishlist(),
            match out {
                Ok(_) => selector_inputs_ok(seed@, weights@) && weights@.len() == old(self).cfg().nodes@.len() && final(self).selector().seed() == seed@ && final(self).selector().weights() == weights@,
                Err(e) => e == ConsensusError::SelectionError && !(selector_inputs_ok(
                    seed@,
                    weights@,
                ) && weights@.len() == old(self).cfg().nodes@.len()) && final(self).selector()
                    == old(self).selector(),
            },
    {
        if weights.len() != self.cfg.nodes.len() {
            return Err(ConsensusError::SelectionError);
        }
        match RandomSelector::new(seed, self.cfg.thread_count, weights) {
            Ok(selector) => {
                self.selector = selector;
                Ok(())
            },
            Err(_) => Err(ConsensusError::SelectionError),
        }
    }

    /// The slot that begins next.
    pub fn get_next_slot(&self) -> (slot: Slot)
        ensures
            slot == self.next_slot(),
    {
        self.next_slot
    }

    /// The answer to `GetSelectionDraws`.
    pub open spec fn spec_draws(&self, start: Slot, end: Slot) -> Result<
        Seq<(Slot, PublicKey)>,
        ConsensusError,
    > {
        selection_draws(
            self.selector().seed(),
            self.selector().weights(),
            self.genesis_public_key(),
            self.cfg().nodes@,
            self.cfg().thread_count,
            start,
            end,
        )
    }

    /// The slots from `start` up to, not including, `end`, each with the
    /// public key of the node entitled to it: the genesis key in period 0,
    /// else the key of the node that the selector draws.  Fails with the
    /// slot overflow error where a slot on the way has no successor.
    pub fn get_selection_draws(&self, start: Slot, end: Slot) -> (out: Result<
        Vec<(Slot, PublicKey)>,
        ConsensusError,
    >)
        requires
            self.wf(),
        ensures
            match out {
                Ok(draws) => self.spec_draws(start, end) == Ok::<
                    Seq<(Slot, PublicKey)>,
                    ConsensusError,
                >(draws@),
                Err(e) => self.spec_draws(start, end) == Err::<
                    Seq<(Slot, PublicKey)>,
                    ConsensusError,
                >(e),
            },
    {
        let mut res: Vec<(Slot, PublicKey)> = Vec::new();
        let mut cur_slot = start;
        loop
            invariant
                self.wf(),
                match self.spec_draws(cur_slot, end) {
                    Ok(rest) => self.spec_draws(start, end) == Ok::<
                        Seq<(Slot, PublicKey)>,
                        ConsensusError,
                    >(res@ + rest),
                    Err(e) => self.spec_draws(start, end) == Err::<
                        Seq<(Slot, PublicKey)>,
                        ConsensusError,
                    >(e),
                },
            decreases slots_left(cur_slot, end),
        {
            if !cur_slot.is_before(&end) {
                assert(res@ + Seq::<(Slot, PublicKey)>::empty() =~= res@);
                return Ok(res);
            }
            let key = if cur_slot.period == 0 {
                self.genesis_public_key
            } else {
                let drawn = self.selector.draw(cur_slot);
                self.cfg.nodes[drawn as usize].0
            };
            let ghost before = res@;
            res.push((cur_slot, key));
            match cur_slot.get_next_slot(self.cfg.thread_count) {
                Ok(next_slot) => {
                    proof {
                        match self.spec_draws(next_slot, end) {
                            Ok(rest) => {
                                assert(before + (seq![(cur_slot, key)] + rest) =~= res@ + rest);
                            },
                            Err(_) => {},
                        }
                    }
                    cur_slot = next_slot;
                },
                Err(_) => {
                    return Err(ConsensusError::SlotOverflowError);
                },
            }
        }
    }
}

} // verus!
