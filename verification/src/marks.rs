//! Marks on the edges of the radix tree: which tenant, and when.

use vstd::prelude::*;

verus! {

/// A tenant's mark on an edge: the tenant's number and the moment at which a
/// text through this edge was last recorded for it.
#[derive(Clone, Copy, Debug)]
pub struct Owner {
    pub id: usize,
    pub stamp: u64,
}

/// Where the mark of `id` stands among `owners`.
pub open spec fn owner_at(owners: Seq<Owner>, id: usize, i: int) -> bool {
    0 <= i < owners.len() && owners[i].id == id
}

/// The moment that the mark of `id` holds, if there is one.
pub open spec fn owner_stamp(owners: Seq<Owner>, id: usize) -> Option<u64> {
    if exists|i: int| owner_at(owners, id, i) {
        Some(owners[choose|i: int| owner_at(owners, id, i)].stamp)
    } else {
        None
    }
}

/// At most one mark per tenant.
pub open spec fn distinct_owners(owners: Seq<Owner>) -> bool {
    forall|i: int, j: int|
        0 <= i < owners.len() && 0 <= j < owners.len() && i != j ==> #[trigger] owners[i].id
            != #[trigger] owners[j].id
}

/// The mark was set by the recording that the log has at its moment.
pub open spec fn in_log(o: Owner, log: Seq<usize>) -> bool {
    0 < o.stamp <= log.len() && log[o.stamp - 1] == o.id
}

/// The marks are distinct and were set by recordings of the log.
pub open spec fn owners_ok(owners: Seq<Owner>, log: Seq<usize>) -> bool {
    &&& distinct_owners(owners)
    &&& forall|i: int| 0 <= i < owners.len() ==> in_log(#[trigger] owners[i], log)
}

/// Whoever is in `lower` is also in `upper`, with a mark that is as recent.
pub open spec fn covered(lower: Seq<Owner>, upper: Seq<Owner>) -> bool {
    forall|id: usize|
        (#[trigger] owner_stamp(lower, id)) is Some ==> owner_stamp(upper, id) is Some
            && owner_stamp(lower, id)->0 <= owner_stamp(upper, id)->0
}

pub(crate) proof fn lemma_owner_stamp(owners: Seq<Owner>, i: int)
    requires
        distinct_owners(owners),
        0 <= i < owners.len(),
    ensures
        owner_stamp(owners, owners[i].id) == Some(owners[i].stamp),
{
    let id = owners[i].id;
    assert(owner_at(owners, id, i));
    let j = choose|j: int| owner_at(owners, id, j);
    assert(i == j);
}

pub(crate) proof fn lemma_owner_index(owners: Seq<Owner>, id: usize) -> (i: int)
    requires
        owner_stamp(owners, id) is Some,
    ensures
        0 <= i < owners.len(),
        owners[i].id == id,
        owner_stamp(owners, id) == Some(owners[i].stamp),
{
    choose|i: int| owner_at(owners, id, i)
}

/// The mark of `id`.
pub(crate) fn find_owner(owners: &Vec<Owner>, id: usize) -> (r: Option<u64>)
    requires
        distinct_owners(owners@),
    ensures
        r == owner_stamp(owners@, id),
{
    let mut i: usize = 0;
    while i < owners.len()
        invariant
            i <= owners.len(),
            distinct_owners(owners@),
            forall|j: int| 0 <= j < i ==> (#[trigger] owners@[j]).id != id,
        decreases owners.len() - i,
    {
        if owners[i].id == id {
            proof {
                lemma_owner_stamp(owners@, i as int);
            }
            return Some(owners[i].stamp);
        }
        i += 1;
    }
    None
}

/// Marks with `id` and `stamp`, replacing an older mark of `id`.
pub(crate) fn set_owner(owners: &mut Vec<Owner>, id: usize, stamp: u64)
    requires
        distinct_owners(old(owners)@),
    ensures
        distinct_owners(final(owners)@),
        forall|k: usize|
            #[trigger] owner_stamp(final(owners)@, k) == if k == id {
                Some(stamp)
            } else {
                owner_stamp(old(owners)@, k)
            },
        final(owners)@.len() > 0,
        forall|i: int|
            0 <= i < final(owners)@.len() ==> (#[trigger] final(owners)@[i]) == (Owner { id, stamp })
                || old(owners)@.contains(final(owners)@[i]),
{
    let ghost before = owners@;
    let mut i: usize = 0;
    while i < owners.len()
        invariant
            i <= owners.len(),
            before == old(owners)@,
            owners@ == before,
            distinct_owners(before),
            forall|j: int| 0 <= j < i ==> (#[trigger] before[j]).id != id,
        decreases owners.len() - i,
    {
        if owners[i].id == id {
            owners.set(i, Owner { id, stamp });
            proof {
                let after = owners@;
                assert(distinct_owners(after));
                assert forall|k: usize| #[trigger]
                    owner_stamp(after, k) == if k == id {
                        Some(stamp)
                    } else {
                        owner_stamp(before, k)
                    } by {
                    if k == id {
                        lemma_owner_stamp(after, i as int);
                    } else if owner_stamp(after, k) is Some {
                        let j = lemma_owner_index(after, k);
                        lemma_owner_stamp(before, j);
                    } else if owner_stamp(before, k) is Some {
                        let j = lemma_owner_index(before, k);
                        lemma_owner_stamp(after, j);
                    }
                }
                assert forall|j: int| 0 <= j < after.len() implies (#[trigger] after[j]) == (Owner { id, stamp })
                    || before.contains(after[j]) by {
                    if j != i {
                        assert(after[j] == before[j]);
                    }
                }
            }
            return;
        }
        i += 1;
    }
    owners.push(Owner { id, stamp });
    proof {
        let after = owners@;
        assert forall|k: usize| #[trigger]
            owner_stamp(after, k) == if k == id {
                Some(stamp)
            } else {
                owner_stamp(before, k)
            } by {
            if k == id {
                lemma_owner_stamp(after, before.len() as int);
            } else if owner_stamp(after, k) is Some {
                let j = lemma_owner_index(after, k);
                lemma_owner_stamp(before, j);
            } else if owner_stamp(before, k) is Some {
                let j = lemma_owner_index(before, k);
                lemma_owner_stamp(after, j);
            }
        }
        assert forall|j: int| 0 <= j < after.len() implies (#[trigger] after[j]) == (Owner { id, stamp })
            || before.contains(after[j]) by {
            if j < before.len() {
                assert(after[j] == before[j]);
            }
        }
    }
}

/// What evicting up to `cuts`, the moments for the tenants by their numbers,
/// makes of a mark of `id`.
pub open spec fn pruned(before: Option<u64>, cuts: Seq<u64>, id: usize) -> Option<u64> {
    if before is Some && id < cuts.len() && before->0 <= cuts[id as int] {
        None
    } else {
        before
    }
}

/// Whether an eviction leaves a mark.
spec fn stays(o: Owner, cuts: Seq<u64>) -> bool {
    !(o.id < cuts.len() && o.stamp <= cuts[o.id as int])
}

/// Removes the marks that are no more recent than `cuts`.
pub(crate) fn drop_stale_owners(owners: &mut Vec<Owner>, cuts: &Vec<u64>)
    requires
        distinct_owners(old(owners)@),
    ensures
        distinct_owners(final(owners)@),
        forall|k: usize|
            #[trigger] owner_stamp(final(owners)@, k) == pruned(owner_stamp(old(owners)@, k), cuts@, k),
        forall|i: int|
            0 <= i < final(owners)@.len() ==> old(owners)@.contains(#[trigger] final(owners)@[i]),
{
    let ghost before = owners@;
    let mut left: Vec<Owner> = Vec::new();
    let mut i: usize = 0;
    while i < owners.len()
        invariant
            i <= owners.len(),
            before == old(owners)@,
            owners@ == before,
            distinct_owners(before),
            distinct_owners(left@),
            forall|m: int|
                0 <= m < left@.len() ==> stays(#[trigger] left@[m], cuts@) && before.take(i as int).contains(
                    left@[m],
                ),
            forall|j: int| 0 <= j < i && stays(#[trigger] before[j], cuts@) ==> left@.contains(before[j]),
        decreases owners.len() - i,
    {
        let o: Owner = owners[i];
        let ghost sofar = left@;
        proof {
            let now = before.take(i as int);
            let next = before.take(i + 1);
            assert forall|x: Owner| now.contains(x) implies next.contains(x) by {
                let j = choose|j: int| 0 <= j < now.len() && now[j] == x;
                assert(next[j] == x);
            }
            assert forall|x: Owner| now.contains(x) implies x.id != o.id by {
                let j = choose|j: int| 0 <= j < now.len() && now[j] == x;
                assert(before[j].id != before[i as int].id);
            }
            assert(next[i as int] == o);
        }
        if !(o.id < cuts.len() && o.stamp <= cuts[o.id]) {
            left.push(o);
            proof {
                assert(left@[sofar.len() as int] == o);
                assert forall|j: int| 0 <= j < i + 1 && stays(#[trigger] before[j], cuts@) implies left@.contains(
                    before[j],
                ) by {
                    if j < i {
                        let m = choose|m: int| 0 <= m < sofar.len() && sofar[m] == before[j];
                        assert(left@[m] == before[j]);
                    }
                }
            }
        }
        i += 1;
    }
    proof {
        let after = left@;
        assert(before.take(before.len() as int) =~= before);
        assert forall|k: usize| #[trigger]
            owner_stamp(after, k) == pruned(owner_stamp(before, k), cuts@, k) by {
            if owner_stamp(after, k) is Some {
                let m = lemma_owner_index(after, k);
                assert(stays(after[m], cuts@));
                let j = choose|j: int| 0 <= j < before.len() && before[j] == after[m];
                lemma_owner_stamp(before, j);
            } else if owner_stamp(before, k) is Some {
                let j = lemma_owner_index(before, k);
                if stays(before[j], cuts@) {
                    let m = choose|m: int| 0 <= m < after.len() && after[m] == before[j];
                    lemma_owner_stamp(after, m);
                }
            }
        }
    }
    *owners = left;
}

/// The most recent mark.
pub(crate) fn newest_owner(owners: &Vec<Owner>) -> (r: Option<Owner>)
    ensures
        match r {
            None => owners@.len() == 0,
            Some(o) => owners@.contains(o) && forall|i: int|
                0 <= i < owners@.len() ==> (#[trigger] owners@[i]).stamp <= o.stamp,
        },
{
    if owners.len() == 0 {
        return None;
    }
    let mut best: Owner = owners[0];
    let mut i: usize = 1;
    while i < owners.len()
        invariant
            1 <= i <= owners@.len(),
            owners@.contains(best),
            forall|j: int| 0 <= j < i ==> (#[trigger] owners@[j]).stamp <= best.stamp,
        decreases owners.len() - i,
    {
        if owners[i].stamp > best.stamp {
            best = owners[i];
            assert(owners@.contains(owners@[i as int]));
        }
        i += 1;
    }
    Some(best)
}

pub(crate) proof fn lemma_owners_grow(owners: Seq<Owner>, log: Seq<usize>, id: usize)
    requires
        owners_ok(owners, log),
    ensures
        owners_ok(owners, log.push(id)),
        forall|k: usize|
            (#[trigger] owner_stamp(owners, k)) is Some ==> 0 < owner_stamp(owners, k)->0 <= log.len(),
{
    assert forall|i: int| 0 <= i < owners.len() implies in_log(#[trigger] owners[i], log.push(id)) by {
        assert(in_log(owners[i], log));
    }
    assert forall|k: usize| (#[trigger] owner_stamp(owners, k)) is Some implies 0 < owner_stamp(owners, k)->0
        <= log.len() by {
        let i = lemma_owner_index(owners, k);
        assert(in_log(owners[i], log));
    }
}

} // verus!
