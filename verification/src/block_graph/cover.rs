//! Why every active block stands in a clique.

use crate::block::BlockId;
use super::lemmas::lemma_filter_holds;
use super::model::{
    around, BlockState, Clique, cliques_with, covered, Entry, holds, holds_all, is_active,
    joined_lists, living, member_lists, refreshed, removed, split_of, splits, welcome,
    with_candidates,
};
use vstd::prelude::*;

verus! {

/// Whether one of `lists` holds `id`.
pub open spec fn listed(lists: Seq<Seq<BlockId>>, id: BlockId) -> bool {
    exists|c: int| 0 <= c < lists.len() && holds(#[trigger] lists[c], id)
}

/// Whether every active block stands in a clique.
#[verifier::opaque]
pub open spec fn cliques_cover(entries: Seq<Entry>, cliques: Seq<Clique>) -> bool {
    forall|j: int|
        0 <= j < entries.len() && (#[trigger] entries[j]).state == BlockState::Active ==> listed(
            member_lists(cliques),
            entries[j].id,
        )
}

/// The cliques with more candidates begin with the cliques with fewer.
pub(crate) proof fn lemma_candidates_grow(
    cliques: Seq<Seq<BlockId>>,
    candidates: Seq<Seq<BlockId>>,
    k: nat,
    n: nat,
    c: int,
)
    requires
        k <= n,
        0 <= c < with_candidates(cliques, candidates, k).len(),
    ensures
        c < with_candidates(cliques, candidates, n).len(),
        with_candidates(cliques, candidates, n)[c] == with_candidates(cliques, candidates, k)[c],
    decreases n - k,
{
    if k < n {
        lemma_candidates_grow(cliques, candidates, k, (n - 1) as nat, c);
    }
}

/// What stands in a clique stands in one once candidates have been added.
pub(crate) proof fn lemma_listed_on(
    cliques: Seq<Seq<BlockId>>,
    candidates: Seq<Seq<BlockId>>,
    k: nat,
    n: nat,
    id: BlockId,
)
    requires
        k <= n,
        listed(with_candidates(cliques, candidates, k), id),
    ensures
        listed(with_candidates(cliques, candidates, n), id),
{
    let c = choose|c: int|
        0 <= c < with_candidates(cliques, candidates, k).len() && holds(
            #[trigger] with_candidates(cliques, candidates, k)[c],
            id,
        );
    lemma_candidates_grow(cliques, candidates, k, n, c);
    assert(holds(with_candidates(cliques, candidates, n)[c], id));
}

/// What a candidate holds stands in a clique once the candidate has been
/// added, or left out because a clique holds all its members.
pub(crate) proof fn lemma_candidate_listed(
    cliques: Seq<Seq<BlockId>>,
    candidates: Seq<Seq<BlockId>>,
    k: nat,
    n: nat,
    id: BlockId,
)
    requires
        k < n,
        holds(candidates[k as int], id),
    ensures
        listed(with_candidates(cliques, candidates, n), id),
{
    let before = with_candidates(cliques, candidates, k);
    let next = with_candidates(cliques, candidates, k + 1);
    if covered(before, candidates[k as int]) {
        let c = choose|c: int|
            0 <= c < before.len() && holds_all(#[trigger] before[c], candidates[k as int]);
        let m = choose|m: int|
            0 <= m < candidates[k as int].len() && #[trigger] candidates[k as int][m] == id;
        assert(holds(before[c], candidates[k as int][m]));
        assert(holds(next[c], id));
    } else {
        assert(next == before.push(candidates[k as int]));
        assert(holds(next[before.len() as int], id));
    }
    lemma_listed_on(cliques, candidates, k + 1, n, id);
}

/// Where no clique welcomes the block, it gives rise to one clique beside
/// each, and each of these holds the block.
pub(crate) proof fn lemma_splits(
    entries: Seq<Entry>,
    cliques: Seq<Seq<BlockId>>,
    id: BlockId,
    count: nat,
)
    requires
        count <= cliques.len(),
        forall|c: int| 0 <= c < count ==> !welcome(entries, #[trigger] cliques[c], id),
    ensures
        splits(entries, cliques, id, count).len() == count,
        forall|k: int|
            0 <= k < count ==> holds(#[trigger] splits(entries, cliques, id, count)[k], id),
    decreases count,
{
    if count > 0 {
        lemma_splits(entries, cliques, id, (count - 1) as nat);
        let before = splits(entries, cliques, id, (count - 1) as nat);
        let opened = around(entries, cliques[count - 1], id);
        assert(!welcome(entries, cliques[count - 1], id));
        assert(splits(entries, cliques, id, count) == before.push(opened));
        assert(opened[opened.len() - 1] == id);
        assert(holds(opened, id));
        assert forall|k: int| 0 <= k < count implies holds(
            #[trigger] splits(entries, cliques, id, count)[k],
            id,
        ) by {
            if k < count - 1 {
                assert(splits(entries, cliques, id, count)[k] == before[k]);
            }
        }
    }
}

/// A block that has been taken into the cliques stands in one of them.
pub(crate) proof fn lemma_newcomer_listed(entries: Seq<Entry>, cliques: Seq<Seq<BlockId>>, id: BlockId)
    ensures
        listed(cliques_with(entries, cliques, id), id),
{
    let joined = joined_lists(entries, cliques, id, cliques.len() as int);
    let candidates = split_of(entries, cliques, id);
    if cliques.len() == 0 {
        let alone = around(entries, Seq::empty(), id);
        assert(alone[alone.len() - 1] == id);
        assert(holds(candidates[0], id));
        lemma_candidate_listed(joined, candidates, 0, 1, id);
    } else if exists|c: int| 0 <= c < cliques.len() && welcome(entries, #[trigger] cliques[c], id) {
        let c = choose|c: int| 0 <= c < cliques.len() && welcome(entries, #[trigger] cliques[c], id);
        assert(joined[c] == cliques[c].push(id));
        assert(joined[c][cliques[c].len() as int] == id);
        assert(holds(joined[c], id));
        assert(listed(with_candidates(joined, candidates, 0), id));
        lemma_listed_on(joined, candidates, 0, candidates.len(), id);
    } else {
        lemma_splits(entries, cliques, id, cliques.len());
        lemma_candidate_listed(joined, candidates, 0, candidates.len(), id);
    }
}

/// What stood in a clique stands in one once a block has been taken into
/// the cliques.
pub(crate) proof fn lemma_member_listed(
    entries: Seq<Entry>,
    cliques: Seq<Seq<BlockId>>,
    id: BlockId,
    member: BlockId,
)
    requires
        listed(cliques, member),
    ensures
        listed(cliques_with(entries, cliques, id), member),
{
    let joined = joined_lists(entries, cliques, id, cliques.len() as int);
    let candidates = split_of(entries, cliques, id);
    let c = choose|c: int| 0 <= c < cliques.len() && holds(#[trigger] cliques[c], member);
    let m = choose|m: int| 0 <= m < cliques[c].len() && #[trigger] cliques[c][m] == member;
    assert(joined[c][m] == member);
    assert(holds(joined[c], member));
    assert(listed(with_candidates(joined, candidates, 0), member));
    lemma_listed_on(joined, candidates, 0, candidates.len(), member);
}

/// An active block that stood in a clique stands in one once what is not
/// active has left the cliques.
pub(crate) proof fn lemma_refreshed_listed(entries: Seq<Entry>, lists: Seq<Seq<BlockId>>, id: BlockId)
    requires
        listed(lists, id),
        is_active(entries, id),
    ensures
        listed(refreshed(entries, lists), id),
    decreases lists.len(),
{
    let c = choose|c: int| 0 <= c < lists.len() && holds(#[trigger] lists[c], id);
    let rest = refreshed(entries, lists.drop_last());
    let kept = lists.last().filter(living(entries));
    if c == lists.len() - 1 {
        lemma_filter_holds(lists.last(), living(entries), id);
        assert(holds(kept, id));
        assert(kept.len() > 0);
        assert(refreshed(entries, lists) == rest.push(kept));
        assert(holds(refreshed(entries, lists)[rest.len() as int], id));
    } else {
        assert(holds(lists.drop_last()[c], id));
        lemma_refreshed_listed(entries, lists.drop_last(), id);
        let d = choose|d: int| 0 <= d < rest.len() && holds(#[trigger] rest[d], id);
        assert(refreshed(entries, lists)[d] == rest[d]);
        assert(holds(refreshed(entries, lists)[d], id));
    }
}

/// Every active block stands in a clique once the entry `i`, which has
/// become active, has been taken into the cliques.
pub(crate) proof fn lemma_cover_join(
    before: Seq<Entry>,
    after: Seq<Entry>,
    earlier: Seq<Clique>,
    later: Seq<Clique>,
    i: int,
)
    requires
        cliques_cover(before, earlier),
        0 <= i < before.len(),
        before.len() == after.len(),
        forall|j: int| 0 <= j < before.len() && j != i ==> #[trigger] after[j] == before[j],
        member_lists(later) == cliques_with(after, member_lists(earlier), after[i].id),
    ensures
        cliques_cover(after, later),
{
    reveal(cliques_cover);
    assert forall|j: int|
        0 <= j < after.len() && (#[trigger] after[j]).state == BlockState::Active implies listed(
        member_lists(later),
        after[j].id,
    ) by {
        if j == i {
            lemma_newcomer_listed(after, member_lists(earlier), after[i].id);
        } else {
            assert(after[j] == before[j]);
            lemma_member_listed(after, member_lists(earlier), after[i].id, after[j].id);
        }
    }
}

/// Every active block stands in a clique once what is no longer active has
/// left the cliques.
pub(crate) proof fn lemma_cover_refresh(
    before: Seq<Entry>,
    after: Seq<Entry>,
    earlier: Seq<Clique>,
    later: Seq<Clique>,
)
    requires
        cliques_cover(before, earlier),
        before.len() == after.len(),
        forall|j: int|
            0 <= j < after.len() && (#[trigger] after[j]).state == BlockState::Active
                ==> before[j].state == BlockState::Active && before[j].id == after[j].id,
        member_lists(later) == refreshed(after, member_lists(earlier)),
    ensures
        cliques_cover(after, later),
{
    reveal(cliques_cover);
    assert forall|j: int|
        0 <= j < after.len() && (#[trigger] after[j]).state == BlockState::Active implies listed(
        member_lists(later),
        after[j].id,
    ) by {
        assert(before[j].state == BlockState::Active);
        assert(is_active(after, after[j].id));
        lemma_refreshed_listed(after, member_lists(earlier), after[j].id);
    }
}

/// Every active block stands in a clique after a change that makes no block
/// active.
pub(crate) proof fn lemma_cover_kept(before: Seq<Entry>, after: Seq<Entry>, cliques: Seq<Clique>)
    requires
        cliques_cover(before, cliques),
        forall|j: int|
            0 <= j < after.len() && (#[trigger] after[j]).state == BlockState::Active ==> j
                < before.len() && before[j].state == BlockState::Active && before[j].id
                == after[j].id,
    ensures
        cliques_cover(after, cliques),
{
    reveal(cliques_cover);
    assert forall|j: int|
        0 <= j < after.len() && (#[trigger] after[j]).state == BlockState::Active implies listed(
        member_lists(cliques),
        after[j].id,
    ) by {
        assert(before[j].state == BlockState::Active);
    }
}

/// Every active block stands in a clique once an entry has left.
pub(crate) proof fn lemma_cover_removal(
    before: Seq<Entry>,
    after: Seq<Entry>,
    j: int,
    cliques: Seq<Clique>,
)
    requires
        cliques_cover(before, cliques),
        removed(before, after, j),
    ensures
        cliques_cover(after, cliques),
{
    reveal(cliques_cover);
    assert forall|y: int|
        0 <= y < after.len() && (#[trigger] after[y]).state == BlockState::Active implies listed(
        member_lists(cliques),
        after[y].id,
    ) by {
        let x = if y < j {
            y
        } else {
            y + 1
        };
        assert(after[y] == before[x]);
        assert(before[x].state == BlockState::Active);
    }
}

} // verus!
