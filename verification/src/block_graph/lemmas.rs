//! Why the conditions on the entries hold on when entries change.

use crate::block::{BlockId, HeaderView};
use super::model::{
    queue_kept,
    actives_respect_finals, among, at_rest, BlockState, bytes_before, Clique, clique_fitness,
    cliques_agree, cliques_ok, count_state, direct_conflict, distinct, doomed, Entry, final_ready,
    finality_rest, finalized, finals_agree, good_clique, grown, holds, ids_before, ids_unique,
    in_ancestry, in_lineage, incompatible, is_active, is_settled, latest_after, latest_ok, lead,
    lineage_of, lineages_closed, Link, link_of, named_by, named_in, parent_fault, parent_pending,
    parents_final, parents_review, parents_settled, position, preferred, queue_ok, Review,
    same_standing, stand_together, step_allowed, touches, waiting_rest,
};
use vstd::prelude::*;

verus! {

/// In a sequence without repeated identifiers, an entry is found at its own
/// index.
pub proof fn lemma_position(entries: Seq<Entry>, i: int)
    requires
        ids_unique(entries),
        0 <= i < entries.len(),
    ensures
        position(entries, entries[i].id) == Some(i),
{
    let id = entries[i].id;
    let found = choose|j: int| 0 <= j < entries.len() && entries[j].id == id;
    assert(entries[found].id == entries[i].id);
    if found < i {
        assert(entries[found].id != entries[i].id);
    } else if i < found {
        assert(entries[i].id != entries[found].id);
    }
}

/// One entry has left the state and no other has entered it.
pub(crate) proof fn lemma_count_less(a: Seq<Entry>, b: Seq<Entry>, i: int, state: BlockState)
    requires
        a.len() <= b.len(),
        0 <= i < a.len(),
        forall|j: int|
            0 <= j < b.len() && j != i ==> ((#[trigger] b[j]).state == state ==> j < a.len()
                && a[j].state == state),
        a[i].state == state,
        b[i].state != state,
    ensures
        count_state(b, state) < count_state(a, state),
    decreases b.len(),
{
    if b.len() > a.len() {
        assert(b.last().state != state);
        lemma_count_less(a, b.drop_last(), i, state);
    } else if i == a.len() - 1 {
        lemma_count_more(a.drop_last(), b.drop_last(), state);
    } else {
        lemma_count_less(a.drop_last(), b.drop_last(), i, state);
    }
}

/// No entry has entered the state.
pub(crate) proof fn lemma_count_more(a: Seq<Entry>, b: Seq<Entry>, state: BlockState)
    requires
        a.len() == b.len(),
        forall|j: int|
            0 <= j < b.len() ==> ((#[trigger] b[j]).state == state ==> a[j].state == state),
    ensures
        count_state(b, state) <= count_state(a, state),
    decreases b.len(),
{
    if b.len() > 0 {
        lemma_count_more(a.drop_last(), b.drop_last(), state);
    }
}

/// What was settled stays settled where entries keep their place and their
/// identifier and no settled entry becomes unsettled.
pub(crate) proof fn lemma_settled_kept(before: Seq<Entry>, after: Seq<Entry>, id: BlockId)
    requires
        before.len() <= after.len(),
        forall|j: int|
            0 <= j < before.len() ==> (#[trigger] after[j]).id == before[j].id && (
            before[j].settled() ==> after[j].settled()),
        is_settled(before, id),
    ensures
        is_settled(after, id),
{
    let j = choose|j: int|
        0 <= j < before.len() && #[trigger] before[j].id == id && before[j].settled();
    assert(after[j].id == id && after[j].settled());
}

/// The invariants that speak of settled entries hold on when entries that
/// are not settled change, or are added behind the others.
pub(crate) proof fn lemma_unsettled_change(before: Seq<Entry>, after: Seq<Entry>)
    requires
        before.len() <= after.len(),
        forall|j: int|
            0 <= j < before.len() ==> (#[trigger] after[j]).id == before[j].id && (
            before[j].settled() ==> after[j] == before[j]) && (after[j].settled()
                ==> before[j].settled()),
        forall|j: int| before.len() <= j < after.len() ==> !(#[trigger] after[j]).settled(),
        parents_settled(before),
        finals_agree(before),
        actives_respect_finals(before),
        lineages_closed(before),
    ensures
        parents_settled(after),
        finals_agree(after),
        actives_respect_finals(after),
        lineages_closed(after),
        forall|id: BlockId| is_settled(before, id) <==> is_settled(after, id),
{
    reveal(parents_settled);
    reveal(finals_agree);
    reveal(actives_respect_finals);
    reveal(lineages_closed);
    assert forall|id: BlockId| is_settled(before, id) <==> is_settled(after, id) by {
        if is_settled(before, id) {
            lemma_settled_kept(before, after, id);
        }
        if is_settled(after, id) {
            let j = choose|j: int|
                0 <= j < after.len() && #[trigger] after[j].id == id && after[j].settled();
            assert(before[j].id == id && before[j].settled());
        }
    }
    assert forall|i: int, k: int|
        0 <= i < after.len() && after[i].state == BlockState::Active && 0 <= k
            < after[i].head().parents.len() implies is_settled(
        after,
        #[trigger] after[i].head().parents[k],
    ) by {
        assert(after[i].settled());
        assert(after[i] == before[i]);
        assert(is_settled(before, before[i].head().parents[k]));
    }
    assert forall|i: int, j: int|
        0 <= i < after.len() && 0 <= j < after.len() && after[i].state == BlockState::Final
            && after[j].state == BlockState::Final implies !direct_conflict(
        #[trigger] after[i].lineage@[0],
        #[trigger] after[j].lineage@[0],
    ) by {
        assert(after[i].settled() && after[j].settled());
        assert(after[i] == before[i] && after[j] == before[j]);
    }
    assert forall|i: int, j: int, n: int|
        0 <= i < after.len() && 0 <= j < after.len() && after[i].state == BlockState::Active
            && after[j].state == BlockState::Final && 0 <= n
            < after[i].lineage@.len() implies !direct_conflict(
        #[trigger] after[i].lineage@[n],
        #[trigger] after[j].lineage@[0],
    ) by {
        assert(after[i].settled() && after[j].settled());
        assert(after[i] == before[i] && after[j] == before[j]);
    }
    assert forall|i: int, j: int, n: int|
        #![trigger after[i].lineage@, after[j].lineage@[n]]
        0 <= i < after.len() && 0 <= j < after.len() && after[i].state == BlockState::Active
            && after[j].state == BlockState::Active && 0 <= n < after[j].lineage@.len() && (
        exists|k: int|
            0 <= k < after[i].head().parents.len() && #[trigger] after[i].head().parents[k]
                == after[j].id) implies in_lineage(after[i].lineage@, after[j].lineage@[n]) by {
        assert(after[i].settled() && after[j].settled());
        assert(after[i] == before[i] && after[j] == before[j]);
        let k = choose|k: int|
            0 <= k < after[i].head().parents.len() && #[trigger] after[i].head().parents[k]
                == after[j].id;
        assert(before[i].head().parents[k] == before[j].id);
        assert(in_lineage(before[i].lineage@, before[j].lineage@[n]));
    }
}

/// The invariants that speak of settled entries hold on when a waiting
/// entry whose parents are all settled becomes active with the lineage of
/// its ancestry, provided that it does not conflict with a final block.
pub(crate) proof fn lemma_activation(before: Seq<Entry>, after: Seq<Entry>, i: int)
    requires
        before.len() == after.len(),
        0 <= i < before.len(),
        forall|j: int| 0 <= j < before.len() && j != i ==> #[trigger] after[j] == before[j],
        ids_unique(before),
        !before[i].settled(),
        before[i].header is Some,
        after[i].id == before[i].id,
        after[i].header == before[i].header,
        after[i].state == BlockState::Active,
        after[i].lineage@.len() >= 1,
        parents_review(before, before[i].head()) == Review::Ready,
        !incompatible(before, before[i].id, before[i].head()),
        forall|l: Link|
            in_lineage(after[i].lineage@, l) <==> in_ancestry(
                before,
                before[i].id,
                before[i].head(),
                l,
            ),
        forall|j: int|
            0 <= j < before.len() && (#[trigger] before[j]).state == BlockState::Final
                ==> before[j].lineage@.len() >= 1,
        parents_settled(before),
        finals_agree(before),
        actives_respect_finals(before),
        lineages_closed(before),
    ensures
        ids_unique(after),
        parents_settled(after),
        finals_agree(after),
        actives_respect_finals(after),
        lineages_closed(after),
        forall|id: BlockId| is_settled(before, id) ==> is_settled(after, id),
        is_settled(after, after[i].id),
{
    reveal(parents_settled);
    reveal(finals_agree);
    reveal(actives_respect_finals);
    reveal(lineages_closed);
    let h = before[i].head();
    assert forall|id: BlockId| is_settled(before, id) implies is_settled(after, id) by {
        lemma_settled_kept(before, after, id);
    }
    assert(after[i].settled());
    assert forall|a: int, k: int|
        0 <= a < after.len() && after[a].state == BlockState::Active && 0 <= k
            < after[a].head().parents.len() implies is_settled(
        after,
        #[trigger] after[a].head().parents[k],
    ) by {
        if a == i {
            assert(!parent_fault(before, h, k) && !parent_pending(before, h, k));
            let j = position(before, h.parents[k])->0;
            assert(before[j].id == h.parents[k] && before[j].settled());
            assert(is_settled(before, h.parents[k]));
        } else {
            assert(before[a] == after[a]);
            assert(is_settled(before, before[a].head().parents[k]));
        }
    }
    assert forall|a: int, b: int|
        0 <= a < after.len() && 0 <= b < after.len() && after[a].state == BlockState::Final
            && after[b].state == BlockState::Final implies !direct_conflict(
        #[trigger] after[a].lineage@[0],
        #[trigger] after[b].lineage@[0],
    ) by {
        assert(after[a] == before[a] && after[b] == before[b]);
    }
    assert forall|a: int, b: int, n: int|
        0 <= a < after.len() && 0 <= b < after.len() && after[a].state == BlockState::Active
            && after[b].state == BlockState::Final && 0 <= n
            < after[a].lineage@.len() implies !direct_conflict(
        #[trigger] after[a].lineage@[n],
        #[trigger] after[b].lineage@[0],
    ) by {
        assert(after[b] == before[b]);
        if a == i {
            let l = after[i].lineage@[n];
            assert(in_lineage(after[i].lineage@, l));
            assert(in_ancestry(before, before[i].id, h, l));
            if l == link_of(before[i].id, h) {
                assert(!direct_conflict(link_of(before[i].id, h), before[b].lineage@[0]));
            } else {
                let (k, j, m) = choose|k: int, j: int, m: int|
                    0 <= k < h.parents.len() && 0 <= j < before.len() && #[trigger] h.parents[k]
                        == before[j].id && before[j].state == BlockState::Active && 0 <= m
                        < before[j].lineage@.len() && #[trigger] before[j].lineage@[m] == l;
                assert(!direct_conflict(before[j].lineage@[m], before[b].lineage@[0]));
            }
        } else {
            assert(after[a] == before[a]);
        }
    }
    assert forall|a: int, b: int, n: int|
        #![trigger after[a].lineage@, after[b].lineage@[n]]
        0 <= a < after.len() && 0 <= b < after.len() && after[a].state == BlockState::Active
            && after[b].state == BlockState::Active && 0 <= n < after[b].lineage@.len() && (
        exists|k: int|
            0 <= k < after[a].head().parents.len() && #[trigger] after[a].head().parents[k]
                == after[b].id) implies in_lineage(after[a].lineage@, after[b].lineage@[n]) by {
        let k = choose|k: int|
            0 <= k < after[a].head().parents.len() && #[trigger] after[a].head().parents[k]
                == after[b].id;
        if b == i {
            // the block was not settled before, so no active block names it as a parent
            if a != i {
                assert(after[a] == before[a]);
                assert(is_settled(before, before[a].head().parents[k]));
                let j = choose|j: int|
                    0 <= j < before.len() && #[trigger] before[j].id == before[a].head().parents[k]
                        && before[j].settled();
                if j < i {
                    assert(before[j].id != before[i].id);
                } else if i < j {
                    assert(before[i].id != before[j].id);
                }
            } else {
                assert(in_lineage(after[i].lineage@, after[i].lineage@[n]));
            }
        } else if a == i {
            assert(after[b] == before[b]);
            assert(h.parents[k] == before[b].id && before[b].lineage@[n] == after[b].lineage@[n]);
            assert(in_ancestry(before, before[i].id, h, after[b].lineage@[n]));
        } else {
            assert(after[a] == before[a] && after[b] == before[b]);
            assert(before[a].head().parents[k] == before[b].id);
            assert(in_lineage(before[a].lineage@, before[b].lineage@[n]));
        }
    }
}

/// The review of a header is the same after entries were added that are
/// incoming or waiting, and others changed without changing their standing.
pub(crate) proof fn lemma_review_kept(before: Seq<Entry>, after: Seq<Entry>, h: HeaderView)
    requires
        ids_unique(before),
        ids_unique(after),
        before.len() <= after.len(),
        forall|j: int| 0 <= j < before.len() ==> same_standing(before[j], #[trigger] after[j]),
        forall|j: int|
            before.len() <= j < after.len() ==> (#[trigger] after[j]).state
                == BlockState::Incoming || after[j].state == BlockState::WaitingForDeps,
    ensures
        parents_review(after, h) == parents_review(before, h),
{
    assert forall|k: int| 0 <= k < h.parents.len() implies parent_fault(after, h, k)
        == parent_fault(before, h, k) && parent_pending(after, h, k) == parent_pending(
        before,
        h,
        k,
    ) by {
        let id = h.parents[k];
        match position(before, id) {
            Some(j) => {
                assert(after[j].id == id);
                lemma_position(after, j);
            },
            None => {
                match position(after, id) {
                    Some(j) => {
                        if j < before.len() {
                            assert(before[j].id == id);
                        }
                    },
                    None => {},
                }
            },
        }
    }
    if exists|k: int| 0 <= k < h.parents.len() && parent_fault(after, h, k) {
        let k = choose|k: int| 0 <= k < h.parents.len() && parent_fault(after, h, k);
        assert(parent_fault(before, h, k));
    }
    if exists|k: int| 0 <= k < h.parents.len() && parent_fault(before, h, k) {
        let k = choose|k: int| 0 <= k < h.parents.len() && parent_fault(before, h, k);
        assert(parent_fault(after, h, k));
    }
    if exists|k: int| 0 <= k < h.parents.len() && parent_pending(after, h, k) {
        let k = choose|k: int| 0 <= k < h.parents.len() && parent_pending(after, h, k);
        assert(parent_pending(before, h, k));
    }
    if exists|k: int| 0 <= k < h.parents.len() && parent_pending(before, h, k) {
        let k = choose|k: int| 0 <= k < h.parents.len() && parent_pending(before, h, k);
        assert(parent_pending(after, h, k));
    }
}

/// A queue of settled blocks stays one where no settled entry becomes
/// unsettled.
pub(crate) proof fn lemma_queue_ok_kept(before: Seq<Entry>, after: Seq<Entry>, queue: Seq<BlockId>)
    requires
        queue_ok(before, queue),
        before.len() <= after.len(),
        forall|j: int|
            0 <= j < before.len() ==> (#[trigger] after[j]).id == before[j].id && (
            before[j].settled() ==> after[j].settled()),
    ensures
        queue_ok(after, queue),
{
    reveal(queue_ok);
    assert forall|q: int| 0 <= q < queue.len() implies is_settled(after, #[trigger] queue[q]) by {
        lemma_settled_kept(before, after, queue[q]);
    }
}

/// A queue of settled blocks stays one when a settled block is added.
pub(crate) proof fn lemma_queue_push(entries: Seq<Entry>, queue: Seq<BlockId>, id: BlockId)
    requires
        queue_ok(entries, queue),
        is_settled(entries, id),
    ensures
        queue_ok(entries, queue.push(id)),
{
    reveal(queue_ok);
}

/// The latest final blocks stay what they are where the final entries stay
/// as they are and no other entry becomes final.
pub(crate) proof fn lemma_latest_kept(before: Seq<Entry>, after: Seq<Entry>, latest: Seq<Link>, thread_count: u8)
    requires
        latest_ok(before, latest, thread_count),
        before.len() <= after.len(),
        forall|j: int|
            0 <= j < before.len() ==> (before[j].state == BlockState::Final ==> #[trigger] after[j]
                == before[j]) && (after[j].state == BlockState::Final ==> before[j].state
                == BlockState::Final),
        forall|j: int|
            before.len() <= j < after.len() ==> (#[trigger] after[j]).state != BlockState::Final,
    ensures
        latest_ok(after, latest, thread_count),
{
    reveal(latest_ok);
    assert forall|t: int| #![trigger latest[t]] 0 <= t < thread_count implies latest[t].slot.thread
        == t && exists|j: int|
        0 <= j < after.len() && #[trigger] after[j].state == BlockState::Final
            && after[j].lineage@[0] == latest[t] by {
        let j = choose|j: int|
            0 <= j < before.len() && #[trigger] before[j].state == BlockState::Final
                && before[j].lineage@[0] == latest[t];
        assert(after[j] == before[j]);
        assert(after[j].state == BlockState::Final);
    }
    assert forall|j: int|
        0 <= j < after.len() && #[trigger] after[j].state
            == BlockState::Final implies after[j].head().slot.thread < thread_count
        && after[j].head().slot.period
        <= latest[after[j].head().slot.thread as int].slot.period by {
        assert(before[j].state == BlockState::Final);
        assert(after[j] == before[j]);
    }
}

/// `grown` holds of a sequence and itself, and of the first and the last of
/// three sequences when it holds of the first two and of the last two.
pub(crate) proof fn lemma_grown(a: Seq<Entry>, b: Seq<Entry>, c: Seq<Entry>)
    requires
        grown(a, b),
        grown(b, c),
    ensures
        grown(a, c),
        grown(a, a),
{
    assert forall|i: int| 0 <= i < a.len() implies (#[trigger] c[i]).id == a[i].id && step_allowed(
        a[i].state,
        c[i].state,
    ) by {
        assert(b[i].id == a[i].id);
        assert(c[i].id == b[i].id);
    }
}

/// The lineage of an active block is the same after a change that leaves
/// the identifiers in place and the lineages of the active blocks as they
/// are.
pub(crate) proof fn lemma_lineage_kept(before: Seq<Entry>, after: Seq<Entry>, id: BlockId)
    requires
        ids_unique(before),
        ids_unique(after),
        before.len() <= after.len(),
        forall|j: int|
            0 <= j < before.len() ==> (#[trigger] after[j]).id == before[j].id && (before[j].state
                == BlockState::Active ==> after[j].lineage == before[j].lineage),
        is_active(before, id),
    ensures
        lineage_of(after, id) == lineage_of(before, id),
{
    let j = choose|j: int|
        0 <= j < before.len() && #[trigger] before[j].id == id && before[j].state
            == BlockState::Active;
    lemma_position(before, j);
    assert(after[j].id == id);
    lemma_position(after, j);
}

/// The members of the cliques can stand together after a change that
/// leaves the identifiers in place and the lineages of the active blocks as
/// they are.
pub(crate) proof fn lemma_agree_kept(before: Seq<Entry>, after: Seq<Entry>, cliques: Seq<Clique>)
    requires
        ids_unique(before),
        ids_unique(after),
        before.len() <= after.len(),
        forall|j: int|
            0 <= j < before.len() ==> (#[trigger] after[j]).id == before[j].id && (before[j].state
                == BlockState::Active ==> after[j].lineage == before[j].lineage),
        cliques_ok(before, cliques),
        cliques_agree(before, cliques),
    ensures
        cliques_agree(after, cliques),
{
    reveal(cliques_ok);
    reveal(cliques_agree);
    assert forall|c: int, m: int, n: int|
        #![trigger cliques[c].members@[m], cliques[c].members@[n]]
        0 <= c < cliques.len() && 0 <= m < n < cliques[c].members@.len()
            implies cliques[c].members@[m] != cliques[c].members@[n] && stand_together(
        after,
        cliques[c].members@[m],
        cliques[c].members@[n],
    ) by {
        assert(is_active(before, cliques[c].members@[m]));
        assert(is_active(before, cliques[c].members@[n]));
        lemma_lineage_kept(before, after, cliques[c].members@[m]);
        lemma_lineage_kept(before, after, cliques[c].members@[n]);
    }
}

/// The lead grows with the members.
pub(crate) proof fn lemma_lead_grows(entries: Seq<Entry>, members: Seq<BlockId>, b: Link, n: int)
    requires
        0 <= n <= members.len(),
    ensures
        lead(entries, members.take(n), b) <= lead(entries, members, b),
    decreases members.len() - n,
{
    if n < members.len() {
        lemma_lead_grows(entries, members, b, n + 1);
        assert(members.take(n + 1).drop_last() =~= members.take(n));
    } else {
        assert(members.take(n) =~= members);
    }
}

/// The cliques stay cliques of active blocks where no active entry leaves
/// the active state.
pub(crate) proof fn lemma_cliques_kept(before: Seq<Entry>, after: Seq<Entry>, cliques: Seq<Clique>)
    requires
        cliques_ok(before, cliques),
        before.len() <= after.len(),
        forall|j: int|
            0 <= j < before.len() ==> (#[trigger] after[j]).id == before[j].id && (before[j].state
                == BlockState::Active ==> after[j].state == BlockState::Active),
    ensures
        cliques_ok(after, cliques),
{
    reveal(cliques_ok);
    assert forall|c: int, m: int|
        0 <= c < cliques.len() && 0 <= m < cliques[c].members@.len() implies is_active(
        after,
        #[trigger] cliques[c].members@[m],
    ) by {
        let id = cliques[c].members@[m];
        let j = choose|j: int|
            0 <= j < before.len() && #[trigger] before[j].id == id && before[j].state
                == BlockState::Active;
        assert(after[j].id == id && after[j].state == BlockState::Active);
    }
}

/// The lead of a block in a clique of active blocks is the same after a
/// change that leaves the settled entries as they are.
pub(crate) proof fn lemma_lead_kept(
    before: Seq<Entry>,
    after: Seq<Entry>,
    members: Seq<BlockId>,
    b: Link,
)
    requires
        ids_unique(after),
        before.len() <= after.len(),
        forall|j: int|
            0 <= j < before.len() ==> (#[trigger] after[j]).id == before[j].id && (
            before[j].settled() ==> after[j] == before[j]),
        forall|m: int| 0 <= m < members.len() ==> is_settled(before, #[trigger] members[m]),
    ensures
        lead(after, members, b) == lead(before, members, b),
    decreases members.len(),
{
    if members.len() > 0 {
        assert forall|m: int| 0 <= m < members.drop_last().len() implies is_settled(
            before,
            #[trigger] members.drop_last()[m],
        ) by {
            assert(members.drop_last()[m] == members[m]);
        }
        lemma_lead_kept(before, after, members.drop_last(), b);
        let id = members.last();
        assert(is_settled(before, members[members.len() - 1]));
        let j = choose|j: int|
            0 <= j < before.len() && #[trigger] before[j].id == id && before[j].settled();
        assert(after[j].id == id);
        lemma_position(after, j);
        assert(ids_unique(before)) by {
            assert forall|x: int, y: int| 0 <= x < y < before.len() implies #[trigger] before[x].id
                != #[trigger] before[y].id by {
                assert(after[x].id == before[x].id);
                assert(after[y].id == before[y].id);
            }
        }
        lemma_position(before, j);
    }
}

/// No active block is to become final after a change that leaves the
/// settled entries as they are and settles no other.
pub(crate) proof fn lemma_finality_kept(
    before: Seq<Entry>,
    after: Seq<Entry>,
    cliques: Seq<Clique>,
    delta_f0: u64,
)
    requires
        ids_unique(after),
        before.len() <= after.len(),
        forall|j: int|
            0 <= j < before.len() ==> (#[trigger] after[j]).id == before[j].id && (
            before[j].settled() ==> after[j] == before[j]) && (after[j].settled()
                ==> before[j].settled()),
        forall|j: int| before.len() <= j < after.len() ==> !(#[trigger] after[j]).settled(),
        cliques_ok(before, cliques),
        finality_rest(before, cliques, delta_f0),
    ensures
        finality_rest(after, cliques, delta_f0),
{
    reveal(finality_rest);
    reveal(cliques_ok);
    assert forall|i: int| 0 <= i < after.len() implies !final_ready(after, cliques, delta_f0, i) by {
        if final_ready(after, cliques, delta_f0, i) {
            assert(after[i].settled());
            assert(i < before.len());
            assert(after[i] == before[i]);
            assert(!final_ready(before, cliques, delta_f0, i));
            let h = before[i].head();
            assert forall|k: int| 0 <= k < h.parents.len() implies (position(
                before,
                #[trigger] h.parents[k],
            ) matches Some(j) && before[j].state == BlockState::Final) by {
                let j = position(after, h.parents[k])->0;
                assert(after[j].settled());
                assert(before[j].id == h.parents[k]);
                assert(ids_unique(before)) by {
                    assert forall|x: int, y: int|
                        0 <= x < y < before.len() implies #[trigger] before[x].id
                        != #[trigger] before[y].id by {
                        assert(after[x].id == before[x].id);
                        assert(after[y].id == before[y].id);
                    }
                }
                lemma_position(before, j);
            }
            assert(parents_final(before, h));
            assert forall|c: int|
                0 <= c < cliques.len() && holds(
                    #[trigger] cliques[c].members@,
                    before[i].id,
                ) implies lead(before, cliques[c].members@, before[i].lineage@[0]) > delta_f0 by {
                assert forall|m: int| 0 <= m < cliques[c].members@.len() implies is_settled(
                    before,
                    #[trigger] cliques[c].members@[m],
                ) by {
                    assert(is_active(before, cliques[c].members@[m]));
                    let j = choose|j: int|
                        0 <= j < before.len() && #[trigger] before[j].id
                            == cliques[c].members@[m] && before[j].state == BlockState::Active;
                    assert(before[j].settled());
                }
                lemma_lead_kept(before, after, cliques[c].members@, before[i].lineage@[0]);
            }
            assert(false);
        }
    }
}

/// The invariants of the entries hold on when an active block becomes
/// final.
pub(crate) proof fn lemma_finalization(before: Seq<Entry>, after: Seq<Entry>, i: int, thread_count: u8)
    requires
        finalized(before, after, i),
        ids_unique(before),
        forall|j: int| 0 <= j < before.len() ==> (#[trigger] before[j]).well_formed(thread_count),
        parents_settled(before),
        finals_agree(before),
        actives_respect_finals(before),
        lineages_closed(before),
    ensures
        ids_unique(after),
        forall|j: int| 0 <= j < after.len() ==> (#[trigger] after[j]).well_formed(thread_count),
        parents_settled(after),
        finals_agree(after),
        actives_respect_finals(after),
        lineages_closed(after),
        grown(before, after),
{
    reveal(parents_settled);
    reveal(finals_agree);
    reveal(actives_respect_finals);
    reveal(lineages_closed);
    let b = before[i].lineage@[0];
    assert(before[i].well_formed(thread_count));
    assert(b.id == before[i].id);
    assert forall|x: int, y: int| 0 <= x < y < after.len() implies #[trigger] after[x].id
        != #[trigger] after[y].id by {
        assert(before[x].id != before[y].id);
    }
    assert forall|j: int| 0 <= j < after.len() implies (#[trigger] after[j]).well_formed(
        thread_count,
    ) by {
        assert(before[j].well_formed(thread_count));
    }
    assert forall|x: int, k: int|
        0 <= x < after.len() && after[x].state == BlockState::Active && 0 <= k
            < after[x].head().parents.len() implies is_settled(
        after,
        #[trigger] after[x].head().parents[k],
    ) by {
        assert(before[x].state == BlockState::Active && !doomed(before[x], b) && x != i);
        let p = before[x].head().parents[k];
        assert(is_settled(before, p));
        let j = choose|j: int|
            0 <= j < before.len() && #[trigger] before[j].id == p && before[j].settled();
        if j != i && doomed(before[j], b) {
            let n = choose|n: int|
                0 <= n < before[j].lineage@.len() && direct_conflict(
                    #[trigger] before[j].lineage@[n],
                    b,
                );
            assert(in_lineage(before[x].lineage@, before[j].lineage@[n]));
            let n2 = choose|n2: int|
                0 <= n2 < before[x].lineage@.len() && #[trigger] before[x].lineage@[n2]
                    == before[j].lineage@[n];
            assert(direct_conflict(before[x].lineage@[n2], b));
            if x < i {
                assert(before[x].id != before[i].id);
            } else {
                assert(before[i].id != before[x].id);
            }
            assert(doomed(before[x], b));
        }
        assert(after[j].id == p && after[j].settled());
    }
    assert forall|x: int, y: int|
        0 <= x < after.len() && 0 <= y < after.len() && after[x].state == BlockState::Final
            && after[y].state == BlockState::Final implies !direct_conflict(
        #[trigger] after[x].lineage@[0],
        #[trigger] after[y].lineage@[0],
    ) by {
        if x == i && y != i {
            assert(before[y].state == BlockState::Final);
            assert(!direct_conflict(before[i].lineage@[0], before[y].lineage@[0]));
        } else if y == i && x != i {
            assert(before[x].state == BlockState::Final);
            assert(!direct_conflict(before[i].lineage@[0], before[x].lineage@[0]));
        } else if x != i && y != i {
            assert(before[x].state == BlockState::Final && before[y].state == BlockState::Final);
        }
    }
    assert forall|x: int, y: int, n: int|
        0 <= x < after.len() && 0 <= y < after.len() && after[x].state == BlockState::Active
            && after[y].state == BlockState::Final && 0 <= n
            < after[x].lineage@.len() implies !direct_conflict(
        #[trigger] after[x].lineage@[n],
        #[trigger] after[y].lineage@[0],
    ) by {
        assert(before[x].state == BlockState::Active && !doomed(before[x], b) && x != i);
        if y == i {
            if x < i {
                assert(before[x].id != before[i].id);
            } else {
                assert(before[i].id != before[x].id);
            }
            assert(!touches(before[x].lineage@, b));
        } else {
            assert(before[y].state == BlockState::Final);
        }
    }
    assert forall|x: int, y: int, n: int|
        #![trigger after[x].lineage@, after[y].lineage@[n]]
        0 <= x < after.len() && 0 <= y < after.len() && after[x].state == BlockState::Active
            && after[y].state == BlockState::Active && 0 <= n < after[y].lineage@.len() && (
        exists|k: int|
            0 <= k < after[x].head().parents.len() && #[trigger] after[x].head().parents[k]
                == after[y].id) implies in_lineage(after[x].lineage@, after[y].lineage@[n]) by {
        assert(before[x].state == BlockState::Active && before[y].state == BlockState::Active);
        let k = choose|k: int|
            0 <= k < after[x].head().parents.len() && #[trigger] after[x].head().parents[k]
                == after[y].id;
        assert(before[x].head().parents[k] == before[y].id);
        assert(in_lineage(before[x].lineage@, before[y].lineage@[n]));
    }
}

/// The latest final blocks are in order once an active block has become
/// final and has taken its place among them.
pub(crate) proof fn lemma_latest_after(
    before: Seq<Entry>,
    after: Seq<Entry>,
    i: int,
    latest: Seq<Link>,
    thread_count: u8,
)
    requires
        finalized(before, after, i),
        before[i].well_formed(thread_count),
        latest_ok(before, latest, thread_count),
    ensures
        latest_ok(after, latest_after(latest, before[i].lineage@[0]), thread_count),
{
    reveal(latest_ok);
    let b = before[i].lineage@[0];
    let next = latest_after(latest, b);
    assert forall|t: int| #![trigger next[t]] 0 <= t < thread_count implies next[t].slot.thread
        == t && exists|j: int|
        0 <= j < after.len() && #[trigger] after[j].state == BlockState::Final
            && after[j].lineage@[0] == next[t] by {
        if next[t] == b && latest[t] != b {
            assert(after[i].state == BlockState::Final && after[i].lineage@[0] == b);
        } else {
            assert(latest[t].slot.thread == t);
            let j = choose|j: int|
                0 <= j < before.len() && #[trigger] before[j].state == BlockState::Final
                    && before[j].lineage@[0] == latest[t];
            assert(after[j].state == BlockState::Final && after[j].lineage@[0] == latest[t]);
        }
    }
    assert forall|j: int|
        0 <= j < after.len() && #[trigger] after[j].state
            == BlockState::Final implies after[j].head().slot.thread < thread_count
        && after[j].head().slot.period <= next[after[j].head().slot.thread as int].slot.period by {
        if j != i {
            assert(before[j].state == BlockState::Final);
        }
    }
}

/// Every entry but `i` is at rest after entries were added that are
/// incoming or waiting, and others changed without changing their standing,
/// their header or whether they hold operations.
pub(crate) proof fn lemma_others_rest(before: Seq<Entry>, after: Seq<Entry>, i: int)
    requires
        ids_unique(before),
        ids_unique(after),
        waiting_rest(before),
        before.len() <= after.len(),
        forall|j: int| 0 <= j < before.len() ==> same_standing(before[j], #[trigger] after[j]),
        forall|j: int|
            before.len() <= j < after.len() ==> (#[trigger] after[j]).state
                == BlockState::Incoming || after[j].state == BlockState::WaitingForDeps,
        forall|j: int|
            0 <= j < after.len() && j != i && (#[trigger] after[j]).state
                == BlockState::WaitingForDeps ==> j < before.len() && before[j].state
                == BlockState::WaitingForDeps && after[j].header == before[j].header
                && after[j].operations == before[j].operations,
    ensures
        forall|j: int| 0 <= j < after.len() && j != i ==> at_rest(after, #[trigger] after[j]),
{
    reveal(waiting_rest);
    assert forall|j: int| 0 <= j < after.len() && j != i implies at_rest(
        after,
        #[trigger] after[j],
    ) by {
        if after[j].state == BlockState::WaitingForDeps {
            lemma_review_kept(before, after, before[j].head());
            assert(at_rest(before, before[j]));
        }
    }
}

/// Whether a block can become active is the same after a change that leaves
/// the settled entries as they are and settles no other.
pub(crate) proof fn lemma_incompatible_kept(before: Seq<Entry>, after: Seq<Entry>, id: BlockId, h: HeaderView)
    requires
        before.len() <= after.len(),
        forall|j: int|
            0 <= j < before.len() ==> (#[trigger] after[j]).id == before[j].id && (
            before[j].settled() ==> after[j] == before[j]) && (after[j].settled()
                ==> before[j].settled()),
        forall|j: int| before.len() <= j < after.len() ==> !(#[trigger] after[j]).settled(),
    ensures
        incompatible(after, id, h) == incompatible(before, id, h),
{
    assert forall|l: Link| in_ancestry(after, id, h, l) == in_ancestry(before, id, h, l) by {
        if in_ancestry(after, id, h, l) && l != link_of(id, h) {
            let (k, j, n) = choose|k: int, j: int, n: int|
                0 <= k < h.parents.len() && 0 <= j < after.len() && #[trigger] h.parents[k]
                    == after[j].id && after[j].state == BlockState::Active && 0 <= n
                    < after[j].lineage@.len() && #[trigger] after[j].lineage@[n] == l;
            assert(after[j].settled());
            assert(h.parents[k] == before[j].id && before[j].lineage@[n] == l);
        }
        if in_ancestry(before, id, h, l) && l != link_of(id, h) {
            let (k, j, n) = choose|k: int, j: int, n: int|
                0 <= k < h.parents.len() && 0 <= j < before.len() && #[trigger] h.parents[k]
                    == before[j].id && before[j].state == BlockState::Active && 0 <= n
                    < before[j].lineage@.len() && #[trigger] before[j].lineage@[n] == l;
            assert(before[j].settled());
            assert(h.parents[k] == after[j].id && after[j].lineage@[n] == l);
        }
    }
    if incompatible(after, id, h) {
        if exists|a: Link, b: Link|
            in_ancestry(after, id, h, a) && in_ancestry(after, id, h, b) && direct_conflict(a, b) {
            let (a, b) = choose|a: Link, b: Link|
                in_ancestry(after, id, h, a) && in_ancestry(after, id, h, b) && direct_conflict(
                    a,
                    b,
                );
            assert(in_ancestry(before, id, h, a) && in_ancestry(before, id, h, b));
        } else {
            let j = choose|j: int|
                0 <= j < after.len() && #[trigger] after[j].state == BlockState::Final
                    && direct_conflict(link_of(id, h), after[j].lineage@[0]);
            assert(after[j].settled());
            assert(before[j].state == BlockState::Final);
        }
    }
    if incompatible(before, id, h) {
        if exists|a: Link, b: Link|
            in_ancestry(before, id, h, a) && in_ancestry(before, id, h, b) && direct_conflict(
                a,
                b,
            ) {
            let (a, b) = choose|a: Link, b: Link|
                in_ancestry(before, id, h, a) && in_ancestry(before, id, h, b) && direct_conflict(
                    a,
                    b,
                );
            assert(in_ancestry(after, id, h, a) && in_ancestry(after, id, h, b));
        } else {
            let j = choose|j: int|
                0 <= j < before.len() && #[trigger] before[j].state == BlockState::Final
                    && direct_conflict(link_of(id, h), before[j].lineage@[0]);
            assert(before[j].settled());
            assert(after[j].state == BlockState::Final);
        }
    }
}

/// `named_by` with one more entry.
pub(crate) proof fn lemma_named_by(entries: Seq<Entry>, limit: int, id: BlockId)
    requires
        0 <= limit < entries.len(),
    ensures
        named_by(entries, limit + 1, id) <==> (named_by(entries, limit, id) || (entries[limit].state
            == BlockState::WaitingForDeps && named_in(entries[limit].head().parents, id))),
{
    if named_by(entries, limit + 1, id) {
        let j = choose|j: int|
            0 <= j < limit + 1 && j < entries.len() && (#[trigger] entries[j]).state
                == BlockState::WaitingForDeps && named_in(entries[j].head().parents, id);
        if j < limit {
            assert(named_by(entries, limit, id));
        }
    }
    if named_by(entries, limit, id) {
        let j = choose|j: int|
            0 <= j < limit && j < entries.len() && (#[trigger] entries[j]).state
                == BlockState::WaitingForDeps && named_in(entries[j].head().parents, id);
        assert(entries[j].state == BlockState::WaitingForDeps);
    }
    if entries[limit].state == BlockState::WaitingForDeps && named_in(
        entries[limit].head().parents,
        id,
    ) {
        assert(named_by(entries, limit + 1, id));
    }
}

/// What a sequence holds once an identifier is added.
pub(crate) proof fn lemma_holds_push(ids: Seq<BlockId>, added: BlockId, id: BlockId)
    ensures
        holds(ids.push(added), id) <==> (holds(ids, id) || added == id),
{
    let more = ids.push(added);
    if holds(more, id) {
        let m = choose|m: int| 0 <= m < more.len() && #[trigger] more[m] == id;
        if m < ids.len() {
            assert(ids[m] == id);
        }
    }
    if holds(ids, id) {
        let m = choose|m: int| 0 <= m < ids.len() && #[trigger] ids[m] == id;
        assert(more[m] == id);
    }
    if added == id {
        assert(more[ids.len() as int] == id);
    }
}

/// A sequence of distinct identifiers stays one when an identifier that it
/// does not hold is added.
pub(crate) proof fn lemma_distinct_push(ids: Seq<BlockId>, added: BlockId)
    requires
        distinct(ids),
        !holds(ids, added),
    ensures
        distinct(ids.push(added)),
{
    let more = ids.push(added);
    assert forall|a: int, b: int| 0 <= a < b < more.len() implies more[a] != more[b] by {
        if b == ids.len() {
            assert(ids[a] == more[a]);
        } else {
            assert(ids[a] == more[a] && ids[b] == more[b]);
        }
    }
}

/// No byte string comes before itself.
pub(crate) proof fn lemma_bytes_irreflexive(a: Seq<u8>)
    ensures
        !bytes_before(a, a),
    decreases a.len(),
{
    if a.len() > 0 {
        lemma_bytes_irreflexive(a.drop_first());
    }
}

/// The order of the byte strings is transitive.
pub(crate) proof fn lemma_bytes_transitive(a: Seq<u8>, b: Seq<u8>, c: Seq<u8>)
    requires
        bytes_before(a, b),
        bytes_before(b, c),
    ensures
        bytes_before(a, c),
    decreases a.len(),
{
    if a.len() > 0 && b.len() > 0 && c.len() > 0 {
        if a[0] == b[0] && b[0] == c[0] {
            lemma_bytes_transitive(a.drop_first(), b.drop_first(), c.drop_first());
        }
    }
}

/// No list of identifiers comes before itself.
pub(crate) proof fn lemma_ids_irreflexive(a: Seq<BlockId>)
    ensures
        !ids_before(a, a),
    decreases a.len(),
{
    if a.len() > 0 {
        lemma_ids_irreflexive(a.drop_first());
    }
}

/// The order of the lists of identifiers is transitive.
pub(crate) proof fn lemma_ids_transitive(a: Seq<BlockId>, b: Seq<BlockId>, c: Seq<BlockId>)
    requires
        ids_before(a, b),
        ids_before(b, c),
    ensures
        ids_before(a, c),
    decreases a.len(),
{
    if a.len() > 0 && b.len() > 0 && c.len() > 0 {
        if a[0] == b[0] && b[0] == c[0] {
            lemma_ids_transitive(a.drop_first(), b.drop_first(), c.drop_first());
        } else if a[0] != b[0] && b[0] != c[0] {
            lemma_bytes_transitive(a[0]@, b[0]@, c[0]@);
            if a[0] == c[0] {
                lemma_bytes_irreflexive(a[0]@);
            }
        }
    }
}

/// No clique is preferred to itself, and the preference is transitive.
pub(crate) proof fn lemma_preferred(entries: Seq<Entry>, a: Seq<BlockId>, b: Seq<BlockId>, c: Seq<BlockId>)
    ensures
        !preferred(entries, a, a),
        preferred(entries, a, b) && preferred(entries, b, c) ==> preferred(entries, a, c),
{
    lemma_ids_irreflexive(a);
    if preferred(entries, a, b) && preferred(entries, b, c) {
        if clique_fitness(entries, a) == clique_fitness(entries, b) && clique_fitness(entries, b)
            == clique_fitness(entries, c) {
            lemma_ids_transitive(c, b, a);
        }
    }
}

/// The cliques of a graph in order could each be a clique.
pub(crate) proof fn lemma_good_cliques(entries: Seq<Entry>, cliques: Seq<Clique>)
    requires
        cliques_ok(entries, cliques),
        cliques_agree(entries, cliques),
    ensures
        forall|c: int|
            0 <= c < cliques.len() ==> good_clique(entries, (#[trigger] cliques[c]).members@),
{
    reveal(cliques_ok);
    reveal(cliques_agree);
    assert forall|c: int| 0 <= c < cliques.len() implies good_clique(
        entries,
        (#[trigger] cliques[c]).members@,
    ) by {
        let members = cliques[c].members@;
        assert forall|a: int| 0 <= a < members.len() implies is_active(
            entries,
            #[trigger] members[a],
        ) by {
            assert(is_active(entries, cliques[c].members@[a]));
        }
        assert forall|m: int, n: int|
            #![trigger members[m], members[n]]
            0 <= m < n < members.len() implies members[m] != members[n] && stand_together(
            entries,
            members[m],
            members[n],
        ) by {
            assert(cliques[c].members@[m] != cliques[c].members@[n] && stand_together(
                entries,
                cliques[c].members@[m],
                cliques[c].members@[n],
            ));
        }
    }
}

/// Where each of the cliques could be a clique, the cliques are in order.
pub(crate) proof fn lemma_cliques_good(entries: Seq<Entry>, cliques: Seq<Clique>)
    requires
        forall|c: int|
            0 <= c < cliques.len() ==> good_clique(entries, (#[trigger] cliques[c]).members@),
    ensures
        cliques_ok(entries, cliques),
        cliques_agree(entries, cliques),
{
    reveal(cliques_ok);
    reveal(cliques_agree);
    assert forall|c: int, m: int|
        0 <= c < cliques.len() && 0 <= m < cliques[c].members@.len() implies is_active(
        entries,
        #[trigger] cliques[c].members@[m],
    ) by {
        assert(good_clique(entries, cliques[c].members@));
    }
    assert forall|c: int, m: int, n: int|
        #![trigger cliques[c].members@[m], cliques[c].members@[n]]
        0 <= c < cliques.len() && 0 <= m < n < cliques[c].members@.len()
            implies cliques[c].members@[m] != cliques[c].members@[n] && stand_together(
        entries,
        cliques[c].members@[m],
        cliques[c].members@[n],
    ) by {
        assert(good_clique(entries, cliques[c].members@));
    }
}

/// What could be a clique can still be one with an active block added that
/// it does not hold and that can stand with each of its members.
pub(crate) proof fn lemma_good_push(entries: Seq<Entry>, members: Seq<BlockId>, id: BlockId)
    requires
        good_clique(entries, members),
        is_active(entries, id),
        !holds(members, id),
        forall|m: int| 0 <= m < members.len() ==> stand_together(entries, #[trigger] members[m], id),
    ensures
        good_clique(entries, members.push(id)),
{
    let more = members.push(id);
    assert forall|a: int| 0 <= a < more.len() implies is_active(entries, #[trigger] more[a]) by {
        if a < members.len() {
            assert(more[a] == members[a]);
        }
    }
    assert forall|m: int, n: int|
        #![trigger more[m], more[n]]
        0 <= m < n < more.len() implies more[m] != more[n] && stand_together(
        entries,
        more[m],
        more[n],
    ) by {
        assert(more[m] == members[m]);
        if n < members.len() {
            assert(more[n] == members[n]);
        } else {
            assert(members[m] != id);
        }
    }
}

/// What a filtered sequence holds: what the sequence holds and the filter
/// lets pass.
pub(crate) proof fn lemma_filter_holds(ids: Seq<BlockId>, pass: spec_fn(BlockId) -> bool, id: BlockId)
    ensures
        holds(ids.filter(pass), id) <==> holds(ids, id) && pass(id),
    decreases ids.len(),
{
    reveal(Seq::filter);
    if ids.len() > 0 {
        lemma_filter_holds(ids.drop_last(), pass, id);
        let rest = ids.drop_last().filter(pass);
        if holds(ids, id) {
            let m = choose|m: int| 0 <= m < ids.len() && #[trigger] ids[m] == id;
            if m < ids.len() - 1 {
                assert(ids.drop_last()[m] == id);
            }
        }
        if holds(ids.drop_last(), id) {
            let m = choose|m: int| 0 <= m < ids.len() - 1 && #[trigger] ids.drop_last()[m] == id;
            assert(ids[m] == id);
        }
        if pass(ids.last()) {
            assert(ids.filter(pass) == rest.push(ids.last()));
            lemma_holds_push(rest, ids.last(), id);
            if ids.last() == id {
                assert(ids[ids.len() - 1] == id);
            }
        } else {
            assert(ids.filter(pass) == rest);
            if ids.last() == id {
                assert(ids[ids.len() - 1] == id);
            }
        }
    }
}

/// What is kept in the queue over two changes is kept over both.
pub(crate) proof fn lemma_queue_kept_step(
    first: Seq<Entry>,
    queue_first: Seq<BlockId>,
    second: Seq<Entry>,
    queue_second: Seq<BlockId>,
    third: Seq<Entry>,
    queue_third: Seq<BlockId>,
)
    requires
        queue_ok(first, queue_first),
        grown(first, second),
        grown(second, third),
        ids_unique(third),
        queue_kept(second, queue_first, queue_second),
        queue_kept(third, queue_second, queue_third),
    ensures
        queue_kept(third, queue_first, queue_third),
{
    reveal(queue_ok);
    assert forall|id: BlockId|
        holds(queue_first, id) && is_settled(third, id) implies #[trigger] holds(
        queue_third,
        id,
    ) by {
        let q = choose|q: int| 0 <= q < queue_first.len() && #[trigger] queue_first[q] == id;
        assert(is_settled(first, queue_first[q]));
        let j = choose|j: int|
            0 <= j < first.len() && #[trigger] first[j].id == id && first[j].settled();
        assert(second[j].id == first[j].id && step_allowed(first[j].state, second[j].state));
        assert(third[j].id == second[j].id && step_allowed(second[j].state, third[j].state));
        let k = choose|k: int|
            0 <= k < third.len() && #[trigger] third[k].id == id && third[k].settled();
        if k < j {
            assert(third[k].id != third[j].id);
        } else if j < k {
            assert(third[j].id != third[k].id);
        }
        assert(second[j].id == id && second[j].settled());
        assert(is_settled(second, id));
        assert(holds(queue_second, id));
    }
}

} // verus!
