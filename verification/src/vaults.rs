//! Vaults of non-fungible tokens, one per resource, and how buckets are
//! gathered into them.

use vstd::prelude::*;
use crate::resources::{copy_ids, holdings, Holding, NonFungibleBucket, NonFungibleGlobalId, NonFungibleLocalId, ResourceAddress};

verus! {

/// No two holdings are of the same resource.
pub open spec fn distinct_resources(hs: Seq<Holding>) -> bool {
    forall|i: int, j: int| 0 <= i < hs.len() && 0 <= j < hs.len() && i != j ==> hs[i].0 != hs[j].0
}

/// Whether some holding is of the resource `a`.
pub open spec fn has_resource(hs: Seq<Holding>, a: ResourceAddress) -> bool {
    exists|i: int| 0 <= i < hs.len() && hs[i].0 == a
}

/// The index of the holding of the resource `a`, or -1 where there is none.
pub open spec fn position(hs: Seq<Holding>, a: ResourceAddress) -> int {
    if has_resource(hs, a) {
        choose|i: int| 0 <= i < hs.len() && hs[i].0 == a
    } else {
        -1
    }
}

/// The ids of the resource `a` that the holdings `hs` hold.
pub open spec fn held(hs: Seq<Holding>, a: ResourceAddress) -> Seq<NonFungibleLocalId> {
    if has_resource(hs, a) {
        hs[position(hs, a)].1
    } else {
        Seq::empty()
    }
}

/// The vaults `hs` after the bucket `b` is put in: into the vault of its
/// resource where there is one, else into a new vault at the end.
pub open spec fn deposit(hs: Seq<Holding>, b: Holding) -> Seq<Holding> {
    if has_resource(hs, b.0) {
        let p = position(hs, b.0);
        hs.update(p, (b.0, hs[p].1 + b.1))
    } else {
        hs.push(b)
    }
}

/// The vaults that the buckets `bs`, put in one after another into no vaults,
/// end up in.
pub open spec fn aggregate(bs: Seq<Holding>) -> Seq<Holding>
    decreases bs.len(),
{
    if bs.len() == 0 {
        Seq::empty()
    } else {
        deposit(aggregate(bs.drop_last()), bs.last())
    }
}

/// The ids of the resource `a` in the buckets `bs`, bucket after bucket.
pub open spec fn given(bs: Seq<Holding>, a: ResourceAddress) -> Seq<NonFungibleLocalId>
    decreases bs.len(),
{
    if bs.len() == 0 {
        Seq::empty()
    } else if bs.last().0 == a {
        given(bs.drop_last(), a) + bs.last().1
    } else {
        given(bs.drop_last(), a)
    }
}

/// The vaults `hs` with every token taken out.
pub open spec fn emptied(hs: Seq<Holding>) -> Seq<Holding> {
    hs.map_values(|h: Holding| (h.0, Seq::<NonFungibleLocalId>::empty()))
}

/// The global ids of the tokens that the holdings `hs` list, holding after
/// holding.
pub open spec fn global_ids(hs: Seq<Holding>) -> Seq<NonFungibleGlobalId>
    decreases hs.len(),
{
    if hs.len() == 0 {
        Seq::empty()
    } else {
        global_ids(hs.drop_last()) + hs.last().1.map_values(
            |id: NonFungibleLocalId| NonFungibleGlobalId { resource_address: hs.last().0, local_id: id },
        )
    }
}

/// The number of ids that the holdings `hs` hold together.
pub open spec fn total_ids(hs: Seq<Holding>) -> nat
    decreases hs.len(),
{
    if hs.len() == 0 {
        0
    } else {
        total_ids(hs.drop_last()) + hs.last().1.len()
    }
}

/// Where the resources are distinct, the position of a resource is the one
/// index that holds it.
pub proof fn lemma_position(hs: Seq<Holding>, a: ResourceAddress, k: int)
    requires
        distinct_resources(hs),
        0 <= k < hs.len(),
        hs[k].0 == a,
    ensures
        has_resource(hs, a),
        position(hs, a) == k,
        held(hs, a) == hs[k].1,
{
}

/// Putting a bucket in keeps the resources distinct, and adds its ids, after
/// those already there, to the vault of its resource alone.
pub proof fn lemma_deposit(hs: Seq<Holding>, b: Holding, a: ResourceAddress)
    requires
        distinct_resources(hs),
    ensures
        distinct_resources(deposit(hs, b)),
        has_resource(deposit(hs, b), a) == (has_resource(hs, a) || a == b.0),
        held(deposit(hs, b), a) == (if a == b.0 { held(hs, a) + b.1 } else { held(hs, a) }),
{
    let d = deposit(hs, b);
    if has_resource(hs, b.0) {
        let p = position(hs, b.0);
        assert(0 <= p < hs.len() && hs[p].0 == b.0);
        assert(d.len() == hs.len());
        assert forall|i: int| 0 <= i < d.len() implies d[i].0 == hs[i].0 by {}
        if has_resource(hs, a) {
            let k = position(hs, a);
            lemma_position(d, a, k);
        } else {
            assert(!has_resource(d, a)) by {
                if has_resource(d, a) {
                    let k = choose|i: int| 0 <= i < d.len() && d[i].0 == a;
                    assert(hs[k].0 == a);
                }
            }
        }
    } else {
        assert(d.len() == hs.len() + 1);
        assert forall|i: int, j: int| 0 <= i < d.len() && 0 <= j < d.len() && i != j implies d[i].0 != d[j].0 by {
            if i == hs.len() as int {
                assert(!(hs[j].0 == b.0));
            } else if j == hs.len() as int {
                assert(!(hs[i].0 == b.0));
            }
        }
        if a == b.0 {
            lemma_position(d, a, hs.len() as int);
        } else if has_resource(hs, a) {
            let k = position(hs, a);
            lemma_position(d, a, k);
        } else {
            assert(!has_resource(d, a)) by {
                if has_resource(d, a) {
                    let k = choose|i: int| 0 <= i < d.len() && d[i].0 == a;
                    assert(k < hs.len());
                    assert(hs[k].0 == a);
                }
            }
        }
    }
}

/// Gathering buckets into vaults gives one vault per resource of the buckets,
/// and the vault of each resource holds exactly the ids of that resource in
/// the buckets, in the order of the buckets.
pub proof fn lemma_aggregate(bs: Seq<Holding>, a: ResourceAddress)
    ensures
        distinct_resources(aggregate(bs)),
        has_resource(aggregate(bs), a) == has_resource(bs, a),
        held(aggregate(bs), a) == given(bs, a),
    decreases bs.len(),
{
    if bs.len() > 0 {
        let rest = bs.drop_last();
        lemma_aggregate(rest, a);
        lemma_deposit(aggregate(rest), bs.last(), a);
        if has_resource(bs, a) && !has_resource(rest, a) {
            let k = choose|i: int| 0 <= i < bs.len() && bs[i].0 == a;
            if k < rest.len() {
                assert(rest[k].0 == a);
            }
        }
        if has_resource(rest, a) {
            let k = choose|i: int| 0 <= i < rest.len() && rest[i].0 == a;
            assert(bs[k].0 == a);
        }
    }
}

/// The index of the vault of resource `a` in `vaults`, if there is one.
pub fn find_vault(vaults: &Vec<NonFungibleBucket>, a: &ResourceAddress) -> (r: Option<usize>)
    requires
        distinct_resources(holdings(vaults@)),
    ensures
        r == (if has_resource(holdings(vaults@), *a) {
            Some(position(holdings(vaults@), *a) as usize)
        } else {
            None::<usize>
        }),
{
    let ghost hs = holdings(vaults@);
    let mut i: usize = 0;
    while i < vaults.len()
        invariant
            i <= vaults.len(),
            hs == holdings(vaults@),
            distinct_resources(hs),
            forall|j: int| 0 <= j < i ==> hs[j].0 != *a,
        decreases vaults.len() - i,
    {
        if vaults[i].resource_address.equals(a) {
            proof {
                lemma_position(hs, *a, i as int);
            }
            return Some(i);
        }
        i = i + 1;
    }
    None
}

/// Gathers the buckets into vaults, one per resource, in the order in which
/// the resources first come: the model of putting each bucket, in turn, into
/// the vault of its resource, created where there is none yet.
pub fn aggregate_buckets(buckets: &Vec<NonFungibleBucket>) -> (r: Vec<NonFungibleBucket>)
    ensures
        holdings(r@) == aggregate(holdings(buckets@)),
{
    let ghost bs = holdings(buckets@);
    let mut vaults: Vec<NonFungibleBucket> = Vec::new();
    let mut i: usize = 0;
    while i < buckets.len()
        invariant
            i <= buckets.len(),
            bs == holdings(buckets@),
            holdings(vaults@) == aggregate(bs.take(i as int)),
        decreases buckets.len() - i,
    {
        let ghost before = holdings(vaults@);
        let ghost bucket = buckets[i as int]@;
        proof {
            lemma_aggregate(bs.take(i as int), buckets[i as int].resource_address);
            assert(bs.take(i + 1).drop_last() =~= bs.take(i as int));
            assert(bs.take(i + 1).last() == bucket);
            assert(aggregate(bs.take(i + 1)) == deposit(before, bucket));
        }
        let address = buckets[i].resource_address;
        let added = copy_ids(&buckets[i].ids, buckets[i].ids.len());
        assert(added@ =~= buckets[i as int].ids@);
        match find_vault(&vaults, &address) {
            Some(p) => {
                let old_vault = vaults.remove(p);
                let mut ids = old_vault.ids;
                let mut more = added;
                ids.append(&mut more);
                vaults.insert(p, NonFungibleBucket { resource_address: address, ids });
                proof {
                    assert(holdings(vaults@) =~= before.update(p as int, (address, before[p as int].1 + buckets[i as int].ids@)));
                }
            },
            None => {
                vaults.push(NonFungibleBucket { resource_address: address, ids: added });
                proof {
                    assert(holdings(vaults@) =~= before.push(buckets[i as int]@));
                }
            },
        }
        assert(holdings(vaults@) == deposit(before, bucket));
        i = i + 1;
    }
    assert(bs.take(buckets.len() as int) =~= bs);
    vaults
}

/// The holdings listed by pairs of a resource and a vector of ids.
pub open spec fn listed(pairs: Seq<(ResourceAddress, Vec<NonFungibleLocalId>)>) -> Seq<Holding> {
    pairs.map_values(|p: (ResourceAddress, Vec<NonFungibleLocalId>)| (p.0, p.1@))
}

/// The holdings of buckets with one more pushed.
pub proof fn lemma_holdings_push(s: Seq<NonFungibleBucket>, b: NonFungibleBucket)
    ensures
        holdings(s.push(b)) == holdings(s).push(b@),
{
    assert(holdings(s.push(b)) =~= holdings(s).push(b@));
}

/// The list of global ids has one entry per listed id.
pub proof fn lemma_global_ids_len(hs: Seq<Holding>)
    ensures
        global_ids(hs).len() == total_ids(hs),
    decreases hs.len(),
{
    if hs.len() > 0 {
        lemma_global_ids_len(hs.drop_last());
    }
}

/// Takes every token out of the vaults: hands back, vault after vault, a bucket
/// with all that the vault held, and leaves each vault, of the same resource,
/// empty.
pub fn take_all(vaults: &mut Vec<NonFungibleBucket>) -> (tokens: Vec<NonFungibleBucket>)
    ensures
        holdings(tokens@) == holdings(old(vaults)@),
        holdings(final(vaults)@) == emptied(holdings(old(vaults)@)),
{
    let ghost hs = holdings(vaults@);
    let mut empty_vaults: Vec<NonFungibleBucket> = Vec::new();
    let mut i: usize = 0;
    while i < vaults.len()
        invariant
            i <= vaults.len(),
            hs == holdings(vaults@),
            holdings(empty_vaults@) == emptied(hs).take(i as int),
        decreases vaults.len() - i,
    {
        assert(hs[i as int] == vaults[i as int]@);
        let none: Vec<NonFungibleLocalId> = Vec::new();
        assert(none@ =~= Seq::<NonFungibleLocalId>::empty());
        let ghost prev = empty_vaults@;
        empty_vaults.push(NonFungibleBucket { resource_address: vaults[i].resource_address, ids: none });
        proof {
            lemma_holdings_push(prev, empty_vaults@[i as int]);
            assert(emptied(hs).take(i + 1) =~= emptied(hs).take(i as int).push(emptied(hs)[i as int]));
        }
        i = i + 1;
        assert(holdings(empty_vaults@) =~= emptied(hs).take(i as int));
    }
    assert(emptied(hs).take(vaults.len() as int) =~= emptied(hs));
    std::mem::swap(vaults, &mut empty_vaults);
    empty_vaults
}

/// Each vault's resource with a copy of all its ids, vault after vault.
pub fn list_ids(vaults: &Vec<NonFungibleBucket>) -> (r: Vec<(ResourceAddress, Vec<NonFungibleLocalId>)>)
    ensures
        listed(r@) == holdings(vaults@),
{
    let ghost hs = holdings(vaults@);
    let mut r: Vec<(ResourceAddress, Vec<NonFungibleLocalId>)> = Vec::new();
    let mut i: usize = 0;
    while i < vaults.len()
        invariant
            i <= vaults.len(),
            hs == holdings(vaults@),
            listed(r@) == hs.take(i as int),
        decreases vaults.len() - i,
    {
        assert(hs[i as int] == vaults[i as int]@);
        let ids = copy_ids(&vaults[i].ids, vaults[i].ids.len());
        assert(ids@ =~= vaults[i as int].ids@);
        let ghost prev = r@;
        r.push((vaults[i].resource_address, ids));
        proof {
            assert(listed(r@) =~= listed(prev).push((vaults[i as int].resource_address, ids@)));
            assert(hs.take(i + 1) =~= hs.take(i as int).push(hs[i as int]));
        }
        i = i + 1;
    }
    assert(hs.take(vaults.len() as int) =~= hs);
    r
}

/// The global ids of the listed tokens, resource after resource.
pub fn global_ids_of(pairs: &Vec<(ResourceAddress, Vec<NonFungibleLocalId>)>) -> (r: Vec<NonFungibleGlobalId>)
    ensures
        r@ == global_ids(listed(pairs@)),
{
    let ghost hs = listed(pairs@);
    let mut r: Vec<NonFungibleGlobalId> = Vec::new();
    let mut i: usize = 0;
    while i < pairs.len()
        invariant
            i <= pairs.len(),
            hs == listed(pairs@),
            r@ == global_ids(hs.take(i as int)),
        decreases pairs.len() - i,
    {
        let address = pairs[i].0;
        let ids = &pairs[i].1;
        let ghost start = r@;
        let ghost h = hs[i as int];
        let mut j: usize = 0;
        while j < ids.len()
            invariant
                j <= ids.len(),
                h == (address, ids@),
                r@ == start + h.1.take(j as int).map_values(
                    |id: NonFungibleLocalId| NonFungibleGlobalId { resource_address: address, local_id: id },
                ),
            decreases ids.len() - j,
        {
            r.push(NonFungibleGlobalId::new(address, ids[j]));
            j = j + 1;
            assert(r@ =~= start + h.1.take(j as int).map_values(
                |id: NonFungibleLocalId| NonFungibleGlobalId { resource_address: address, local_id: id },
            ));
        }
        proof {
            assert(h.1.take(ids.len() as int) =~= h.1);
            assert(hs.take(i + 1).drop_last() =~= hs.take(i as int));
        }
        i = i + 1;
    }
    assert(hs.take(pairs.len() as int) =~= hs);
    r
}

} // verus!
