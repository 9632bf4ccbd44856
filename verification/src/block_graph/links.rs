//! Comparing links, lineages and lists of identifiers.

use crate::block::{BlockHeader, BlockId};
use crate::endorsement::Endorsement;
use super::model::{
    bytes_before, direct_conflict, endorsements_ok, holds, ids_before, in_lineage,
    lineages_conflict, Link, touches,
};
use vstd::prelude::*;

verus! {

/// Whether two links are the same.
pub(crate) fn link_same(a: &Link, b: &Link) -> (same: bool)
    ensures
        same == (*a == *b),
{
    if !a.id.same(&b.id) || a.slot != b.slot {
        return false;
    }
    match (&a.parent, &b.parent) {
        (Some(x), Some(y)) => x.same(y),
        (None, None) => true,
        _ => false,
    }
}

/// Whether two blocks cannot both stand in one thread.
pub(crate) fn links_conflict(a: &Link, b: &Link) -> (conflict: bool)
    ensures
        conflict == direct_conflict(*a, *b),
{
    if a.id.same(&b.id) || a.slot.thread != b.slot.thread {
        return false;
    }
    if a.slot.period == b.slot.period {
        return true;
    }
    match (&a.parent, &b.parent) {
        (Some(x), Some(y)) => x.same(y),
        _ => false,
    }
}

/// Whether `link` occurs in `lineage`.
pub(crate) fn lineage_holds(lineage: &Vec<Link>, link: &Link) -> (found: bool)
    ensures
        found == in_lineage(lineage@, *link),
{
    let mut n: usize = 0;
    while n < lineage.len()
        invariant
            n <= lineage@.len(),
            forall|a: int| 0 <= a < n ==> lineage@[a] != *link,
        decreases lineage@.len() - n,
    {
        if link_same(&lineage[n], link) {
            return true;
        }
        n += 1;
    }
    false
}

/// Whether a block of `a` conflicts with a block of `b`.
pub(crate) fn lineages_clash(a: &Vec<Link>, b: &Vec<Link>) -> (clash: bool)
    ensures
        clash == lineages_conflict(a@, b@),
{
    let mut i: usize = 0;
    while i < a.len()
        invariant
            i <= a@.len(),
            forall|x: int, y: int|
                0 <= x < i && 0 <= y < b@.len() ==> !direct_conflict(
                    #[trigger] a@[x],
                    #[trigger] b@[y],
                ),
        decreases a@.len() - i,
    {
        let mut j: usize = 0;
        while j < b.len()
            invariant
                i < a@.len(),
                j <= b@.len(),
                forall|y: int| 0 <= y < j ==> !direct_conflict(a@[i as int], #[trigger] b@[y]),
            decreases b@.len() - j,
        {
            if links_conflict(&a[i], &b[j]) {
                return true;
            }
            j += 1;
        }
        i += 1;
    }
    false
}

/// Whether the identifier `a` comes before the identifier `b`.
pub(crate) fn id_before(a: &BlockId, b: &BlockId) -> (yes: bool)
    ensures
        yes == bytes_before(a@, b@),
{
    let x = a.0.to_bytes();
    let y = b.0.to_bytes();
    let mut k: usize = 0;
    proof {
        a.lemma_view(*b);
        b.lemma_view(*a);
        assert(x@.skip(0) =~= x@);
        assert(y@.skip(0) =~= y@);
    }
    while k < 32
        invariant
            k <= 32,
            x@.len() == 32,
            y@.len() == 32,
            x@ == a@,
            y@ == b@,
            bytes_before(a@, b@) == bytes_before(x@.skip(k as int), y@.skip(k as int)),
        decreases 32 - k,
    {
        proof {
            assert(x@.skip(k as int).drop_first() =~= x@.skip(k + 1));
            assert(y@.skip(k as int).drop_first() =~= y@.skip(k + 1));
            assert(x@.skip(k as int)[0] == x@[k as int]);
            assert(y@.skip(k as int)[0] == y@[k as int]);
        }
        if x[k] != y[k] {
            return x[k] < y[k];
        }
        k += 1;
    }
    proof {
        assert(y@.skip(32).len() == 0);
    }
    false
}

/// Whether the identifiers `a` come before the identifiers `b`.
pub(crate) fn list_before(a: &Vec<BlockId>, b: &Vec<BlockId>) -> (yes: bool)
    ensures
        yes == ids_before(a@, b@),
{
    let mut k: usize = 0;
    proof {
        assert(a@.skip(0) =~= a@);
        assert(b@.skip(0) =~= b@);
    }
    while k < a.len() && k < b.len()
        invariant
            k <= a@.len(),
            k <= b@.len(),
            ids_before(a@, b@) == ids_before(a@.skip(k as int), b@.skip(k as int)),
        decreases a@.len() - k,
    {
        proof {
            assert(a@.skip(k as int).drop_first() =~= a@.skip(k + 1));
            assert(b@.skip(k as int).drop_first() =~= b@.skip(k + 1));
            assert(a@.skip(k as int)[0] == a@[k as int]);
            assert(b@.skip(k as int)[0] == b@[k as int]);
        }
        if !a[k].same(&b[k]) {
            return id_before(&a[k], &b[k]);
        }
        k += 1;
    }
    proof {
        assert(a@.skip(k as int).len() == a@.len() - k);
        assert(b@.skip(k as int).len() == b@.len() - k);
    }
    k < b.len()
}

/// Whether a block of `lineage` conflicts with the block with link `b`.
pub(crate) fn lineage_touches(lineage: &Vec<Link>, b: &Link) -> (yes: bool)
    ensures
        yes == touches(lineage@, *b),
{
    let mut n: usize = 0;
    while n < lineage.len()
        invariant
            n <= lineage@.len(),
            forall|a: int| 0 <= a < n ==> !direct_conflict(#[trigger] lineage@[a], *b),
        decreases lineage@.len() - n,
    {
        if links_conflict(&lineage[n], b) {
            return true;
        }
        n += 1;
    }
    false
}

/// Whether `id` occurs in `members`.
pub(crate) fn member_of(members: &Vec<BlockId>, id: &BlockId) -> (found: bool)
    ensures
        found == holds(members@, *id),
{
    let mut m: usize = 0;
    while m < members.len()
        invariant
            m <= members@.len(),
            forall|a: int| 0 <= a < m ==> members@[a] != *id,
        decreases members@.len() - m,
    {
        if members[m].same(id) {
            return true;
        }
        m += 1;
    }
    false
}

/// Whether the endorsements of `header` are in order.
pub(crate) fn check_endorsements(header: &BlockHeader, endorsement_count: u32) -> (ok: bool)
    requires
        header@.slot.thread < header@.parents.len(),
    ensures
        ok == endorsements_ok(header@, endorsement_count),
{
    if header.endorsements.len() > endorsement_count as usize {
        return false;
    }
    let parent: BlockId = header.parents[header.slot.thread as usize];
    let mut i: usize = 0;
    while i < header.endorsements.len()
        invariant
            i <= header.endorsements@.len() <= endorsement_count,
            header@.slot.thread < header@.parents.len(),
            parent == header@.parents[header@.slot.thread as int],
            forall|a: int|
                0 <= a < i ==> (#[trigger] header@.endorsements[a]).index < endorsement_count
                    && header@.endorsements[a].endorsed_block == parent,
            forall|a: int, b: int|
                0 <= a < b < i ==> (#[trigger] header@.endorsements[a]).index != (
                #[trigger] header@.endorsements[b]).index,
        decreases header.endorsements@.len() - i,
    {
        let e: Endorsement = header.endorsements[i];
        if e.index >= endorsement_count || !e.endorsed_block.same(&parent) {
            return false;
        }
        let mut j: usize = 0;
        while j < i
            invariant
                j <= i < header.endorsements@.len(),
                e == header@.endorsements[i as int],
                forall|a: int|
                    0 <= a < j ==> (#[trigger] header@.endorsements[a]).index != e.index,
            decreases i - j,
        {
            if header.endorsements[j].index == e.index {
                return false;
            }
            j += 1;
        }
        i += 1;
    }
    true
}

} // verus!
