//! What holds of a block that has become final.

use crate::block::BlockId;
use super::calm::{content_kept, seated, steady_kept};
use super::lemmas::lemma_position;
use super::model::{
    BlockState, Clique, cliques_agree, cliques_ok, descends, distinct, Entry, final_ready,
    finalized, finals_rooted, fitness_of, grown, holds, ids_unique, is_active, lead,
    Link, named_by_final, parents_final, position, removed, step_allowed,
};
use vstd::prelude::*;

verus! {

/// Whether the block `id` is or has been active: its entry is active, final
/// or discarded.
pub open spec fn raised(entries: Seq<Entry>, id: BlockId) -> bool {
    exists|j: int|
        0 <= j < entries.len() && (#[trigger] entries[j]).id == id && entries[j].state
            != BlockState::Incoming && entries[j].state != BlockState::WaitingForDeps
}

/// Whether the entry `e` could become final among `entries`: its parents
/// are final, and there are blocks that are or have been active, each
/// named once, among which its descendants have a fitness of more than
/// `delta_f0`.
pub open spec fn ripe(entries: Seq<Entry>, delta_f0: u64, e: Entry) -> bool {
    &&& parents_final(entries, e.head())
    &&& exists|members: Seq<BlockId>|
        #![trigger lead(entries, members, e.lineage@[0])]
        distinct(members) && (forall|m: int|
            0 <= m < members.len() ==> raised(entries, #[trigger] members[m])) && lead(
            entries,
            members,
            e.lineage@[0],
        ) > delta_f0
}

/// Whether every entry that is final in `after` and was not final in
/// `before` could become final.
pub open spec fn rose(before: Seq<Entry>, after: Seq<Entry>, delta_f0: u64) -> bool {
    forall|j: int|
        0 <= j < after.len() && (#[trigger] after[j]).state == BlockState::Final && (j
            < before.len() ==> before[j].state != BlockState::Final) ==> ripe(
            after,
            delta_f0,
            after[j],
        )
}

/// Whether every entry of `before` that is active, final or discarded has
/// in `after` the lineage it had.
pub open spec fn lineage_kept(before: Seq<Entry>, after: Seq<Entry>) -> bool {
    &&& before.len() <= after.len()
    &&& forall|j: int|
        0 <= j < before.len() && (#[trigger] before[j]).state != BlockState::Incoming
            && before[j].state != BlockState::WaitingForDeps ==> after[j].lineage
            == before[j].lineage
}

/// The lead among blocks that are or have been active stays where they keep
/// their headers and lineages.
pub(crate) proof fn lemma_lead_stays(
    before: Seq<Entry>,
    after: Seq<Entry>,
    members: Seq<BlockId>,
    b: Link,
)
    requires
        ids_unique(before),
        ids_unique(after),
        content_kept(before, after),
        lineage_kept(before, after),
        forall|m: int| 0 <= m < members.len() ==> raised(before, #[trigger] members[m]),
    ensures
        lead(after, members, b) == lead(before, members, b),
    decreases members.len(),
{
    if members.len() > 0 {
        assert forall|m: int| 0 <= m < members.drop_last().len() implies raised(
            before,
            #[trigger] members.drop_last()[m],
        ) by {
            assert(members.drop_last()[m] == members[m]);
        }
        lemma_lead_stays(before, after, members.drop_last(), b);
        let id = members.last();
        assert(raised(before, members[members.len() - 1]));
        let j = choose|j: int|
            0 <= j < before.len() && (#[trigger] before[j]).id == id && before[j].state
                != BlockState::Incoming && before[j].state != BlockState::WaitingForDeps;
        assert(after[j].id == id && after[j].header == before[j].header);
        assert(after[j].lineage == before[j].lineage);
        lemma_position(after, j);
        lemma_position(before, j);
        assert(descends(after, id, b) == descends(before, id, b));
        assert(fitness_of(after, id) == fitness_of(before, id));
    }
}

/// What could become final can still, after a change that keeps headers,
/// lineages and what is final.
pub(crate) proof fn lemma_ripe_stays(before: Seq<Entry>, after: Seq<Entry>, delta_f0: u64, e: Entry)
    requires
        ids_unique(before),
        ids_unique(after),
        grown(before, after),
        content_kept(before, after),
        lineage_kept(before, after),
        ripe(before, delta_f0, e),
    ensures
        ripe(after, delta_f0, e),
{
    let h = e.head();
    assert forall|k: int| 0 <= k < h.parents.len() implies (position(
        after,
        #[trigger] h.parents[k],
    ) matches Some(j) && after[j].state == BlockState::Final) by {
        let j = position(before, h.parents[k])->0;
        assert(after[j].id == before[j].id && step_allowed(before[j].state, after[j].state));
        lemma_position(after, j);
    }
    let members = choose|members: Seq<BlockId>|
        #![trigger lead(before, members, e.lineage@[0])]
        distinct(members) && (forall|m: int|
            0 <= m < members.len() ==> raised(before, #[trigger] members[m])) && lead(
            before,
            members,
            e.lineage@[0],
        ) > delta_f0;
    lemma_lead_stays(before, after, members, e.lineage@[0]);
    assert forall|m: int| 0 <= m < members.len() implies raised(after, #[trigger] members[m]) by {
        let j = choose|j: int|
            0 <= j < before.len() && (#[trigger] before[j]).id == members[m] && before[j].state
                != BlockState::Incoming && before[j].state != BlockState::WaitingForDeps;
        assert(after[j].id == before[j].id && step_allowed(before[j].state, after[j].state));
    }
    assert(lead(after, members, e.lineage@[0]) > delta_f0);
}

/// What rose over two changes rose over both.
pub(crate) proof fn lemma_rose_twice(a: Seq<Entry>, b: Seq<Entry>, c: Seq<Entry>, delta_f0: u64)
    requires
        a.len() == b.len(),
        ids_unique(b),
        ids_unique(c),
        grown(a, b),
        grown(b, c),
        content_kept(b, c),
        lineage_kept(a, b),
        lineage_kept(b, c),
        rose(a, b, delta_f0),
        rose(b, c, delta_f0),
    ensures
        rose(a, c, delta_f0),
        lineage_kept(a, c),
{
    assert forall|j: int|
        0 <= j < c.len() && (#[trigger] c[j]).state == BlockState::Final && (j < a.len()
            ==> a[j].state != BlockState::Final) implies ripe(c, delta_f0, c[j]) by {
        if j < b.len() && b[j].state == BlockState::Final {
            assert(c[j].id == b[j].id && step_allowed(b[j].state, c[j].state));
            assert(c[j].header == b[j].header);
            assert(c[j].lineage == b[j].lineage);
            assert(ripe(b, delta_f0, b[j]));
            lemma_ripe_stays(b, c, delta_f0, b[j]);
            lemma_ripe_same(c, delta_f0, b[j], c[j]);
        }
    }
    assert forall|j: int|
        0 <= j < a.len() && (#[trigger] a[j]).state != BlockState::Incoming && a[j].state
            != BlockState::WaitingForDeps implies c[j].lineage == a[j].lineage by {
        assert(b[j].id == a[j].id && step_allowed(a[j].state, b[j].state));
    }
}

/// Whether an entry could become final is a matter of its header and its
/// lineage.
pub(crate) proof fn lemma_ripe_same(entries: Seq<Entry>, delta_f0: u64, e: Entry, f: Entry)
    requires
        ripe(entries, delta_f0, e),
        e.header == f.header,
        e.lineage == f.lineage,
    ensures
        ripe(entries, delta_f0, f),
{
    let members = choose|members: Seq<BlockId>|
        #![trigger lead(entries, members, e.lineage@[0])]
        distinct(members) && (forall|m: int|
            0 <= m < members.len() ==> raised(entries, #[trigger] members[m])) && lead(
            entries,
            members,
            e.lineage@[0],
        ) > delta_f0;
    assert(lead(entries, members, f.lineage@[0]) > delta_f0);
}

/// An entry that is to become final and becomes final could become final:
/// the members of a clique in which it stood are the blocks among which
/// its descendants lead.
pub(crate) proof fn lemma_finalized_rose(
    before: Seq<Entry>,
    after: Seq<Entry>,
    i: int,
    cliques: Seq<Clique>,
    delta_f0: u64,
)
    requires
        ids_unique(before),
        ids_unique(after),
        cliques_ok(before, cliques),
        cliques_agree(before, cliques),
        final_ready(before, cliques, delta_f0, i),
        finalized(before, after, i),
    ensures
        rose(before, after, delta_f0),
        lineage_kept(before, after),
        content_kept(before, after),
{
    reveal(cliques_ok);
    reveal(cliques_agree);
    let c = choose|c: int|
        0 <= c < cliques.len() && holds(#[trigger] cliques[c].members@, before[i].id);
    let members = cliques[c].members@;
    assert forall|m: int| 0 <= m < members.len() implies raised(before, #[trigger] members[m]) by {
        assert(is_active(before, cliques[c].members@[m]));
        let j = choose|j: int|
            0 <= j < before.len() && #[trigger] before[j].id == members[m] && before[j].state
                == BlockState::Active;
        assert(before[j].state != BlockState::Incoming);
    }
    assert(distinct(members)) by {
        assert forall|x: int, y: int| 0 <= x < y < members.len() implies members[x]
            != members[y] by {
            assert(cliques[c].members@[x] != cliques[c].members@[y]);
        }
    }
    assert(lead(before, members, before[i].lineage@[0]) > delta_f0);
    assert(ripe(before, delta_f0, before[i]));
    assert(grown(before, after)) by {
        assert forall|j: int| 0 <= j < before.len() implies (#[trigger] after[j]).id
            == before[j].id && step_allowed(before[j].state, after[j].state) by {}
    }
    lemma_ripe_stays(before, after, delta_f0, before[i]);
    lemma_ripe_same(after, delta_f0, before[i], after[i]);
    assert forall|j: int|
        0 <= j < after.len() && (#[trigger] after[j]).state == BlockState::Final && (j
            < before.len() ==> before[j].state != BlockState::Final) implies ripe(
        after,
        delta_f0,
        after[j],
    ) by {
        assert(after[j].id == before[j].id);
        assert(j == i);
    }
}

/// No final block has a waiting or active parent after a change that makes
/// no block final and lets wait only what waited or was active, or what no
/// final block names.
pub(crate) proof fn lemma_rooted_change(before: Seq<Entry>, after: Seq<Entry>)
    requires
        finals_rooted(before),
        before.len() <= after.len(),
        forall|j: int|
            0 <= j < after.len() && (#[trigger] after[j]).state == BlockState::Final ==> j
                < before.len() && after[j] == before[j],
        forall|p: int|
            0 <= p < after.len() && ((#[trigger] after[p]).state == BlockState::WaitingForDeps
                || after[p].state == BlockState::Active) ==> (p < before.len() && before[p].id
                == after[p].id && (before[p].state == BlockState::WaitingForDeps || before[p].state
                == BlockState::Active)) || !named_by_final(before, after[p].id),
    ensures
        finals_rooted(after),
{
    reveal(finals_rooted);
    assert forall|p: int|
        0 <= p < after.len() && ((#[trigger] after[p]).state == BlockState::WaitingForDeps
            || after[p].state == BlockState::Active) implies !named_by_final(
        after,
        after[p].id,
    ) by {
        if named_by_final(after, after[p].id) {
            let j = choose|j: int|
                0 <= j < after.len() && (#[trigger] after[j]).state == BlockState::Final && holds(
                    after[j].head().parents,
                    after[p].id,
                );
            assert(after[j] == before[j]);
            assert(named_by_final(before, after[p].id));
            if p < before.len() && before[p].id == after[p].id {
                assert(before[p].state == BlockState::WaitingForDeps || before[p].state
                    == BlockState::Active ==> !named_by_final(before, before[p].id));
            }
        }
    }
}

/// No final block has a waiting or active parent once an active block whose
/// parents are final has become final.
pub(crate) proof fn lemma_rooted_finalized(before: Seq<Entry>, after: Seq<Entry>, i: int)
    requires
        finals_rooted(before),
        ids_unique(before),
        finalized(before, after, i),
        parents_final(before, before[i].head()),
    ensures
        finals_rooted(after),
{
    reveal(finals_rooted);
    assert forall|p: int|
        0 <= p < after.len() && ((#[trigger] after[p]).state == BlockState::WaitingForDeps
            || after[p].state == BlockState::Active) implies !named_by_final(
        after,
        after[p].id,
    ) by {
        assert(after[p].id == before[p].id);
        assert(before[p].state == after[p].state);
        if named_by_final(after, after[p].id) {
            let j = choose|j: int|
                0 <= j < after.len() && (#[trigger] after[j]).state == BlockState::Final && holds(
                    after[j].head().parents,
                    after[p].id,
                );
            assert(after[j].header == before[j].header);
            if j == i {
                let h = before[i].head();
                let k = choose|k: int| 0 <= k < h.parents.len() && #[trigger] h.parents[k]
                    == after[p].id;
                assert(position(before, h.parents[k]) is Some);
                lemma_position(before, p);
            } else {
                assert(before[j].state == BlockState::Final);
                assert(named_by_final(before, before[p].id));
            }
        }
    }
}

/// No final block has a waiting or active parent once an entry has left.
pub(crate) proof fn lemma_rooted_removal(before: Seq<Entry>, after: Seq<Entry>, j: int)
    requires
        finals_rooted(before),
        removed(before, after, j),
    ensures
        finals_rooted(after),
{
    reveal(finals_rooted);
    assert forall|p: int|
        0 <= p < after.len() && ((#[trigger] after[p]).state == BlockState::WaitingForDeps
            || after[p].state == BlockState::Active) implies !named_by_final(
        after,
        after[p].id,
    ) by {
        let x = if p < j {
            p
        } else {
            p + 1
        };
        assert(after[p] == before[x]);
        if named_by_final(after, after[p].id) {
            let y = choose|y: int|
                0 <= y < after.len() && (#[trigger] after[y]).state == BlockState::Final && holds(
                    after[y].head().parents,
                    after[p].id,
                );
            let z = if y < j {
                y
            } else {
                y + 1
            };
            assert(after[y] == before[z]);
            assert(before[z].state == BlockState::Final);
            assert(named_by_final(before, before[x].id));
        }
    }
}

/// What rose since a hash was seated rose since before.
pub(crate) proof fn lemma_seated_rose(
    before: Seq<Entry>,
    after: Seq<Entry>,
    last: Seq<Entry>,
    hash: BlockId,
    i: int,
    delta_f0: u64,
)
    requires
        seated(before, after, hash, i),
        !after[i].settled(),
        last.len() == after.len(),
        steady_kept(after, last, None),
        rose(after, last, delta_f0),
    ensures
        rose(before, last, delta_f0),
{
    assert forall|j: int|
        0 <= j < last.len() && (#[trigger] last[j]).state == BlockState::Final && (j
            < before.len() ==> before[j].state != BlockState::Final) implies ripe(
        last,
        delta_f0,
        last[j],
    ) by {
        if after[j].state == BlockState::Final {
            assert(j != i);
            if j >= before.len() {
                assert(after[j].state == BlockState::Incoming);
            }
            assert(after[j] == before[j]);
        }
    }
}

} // verus!
