//! Plain-value models of ledger addresses, ids and buckets.

use vstd::prelude::*;
use crate::decimal::Decimal;

verus! {

/// The address of a resource on the ledger: its thirty-byte node id.
#[derive(Clone, Copy, Debug)]
pub struct ResourceAddress {
    pub bytes: [u8; 30],
}

impl ResourceAddress {
    /// Whether two resource addresses are the same.
    pub fn equals(&self, other: &Self) -> (r: bool)
        ensures
            r == (*self == *other),
    {
        let mut i: usize = 0;
        while i < 30
            invariant
                i <= 30,
                forall|j: int| 0 <= j < i ==> self.bytes[j] == other.bytes[j],
            decreases 30 - i,
        {
            if self.bytes[i] != other.bytes[i] {
                return false;
            }
            i = i + 1;
        }
        assert(self.bytes =~= other.bytes);
        true
    }
}


/// The address of a global component on the ledger: its thirty-byte node id.
#[derive(Clone, Copy, Debug)]
pub struct ComponentAddress {
    pub bytes: [u8; 30],
}

/// The four kinds of local id that a non-fungible resource can use.
#[derive(Clone, Copy, Debug, PartialEq, Eq, Structural)]
pub enum LocalIdKind {
    String,
    Integer,
    Bytes,
    Ruid,
}

/// The id of a non-fungible token within its resource: its kind and its
/// encoding, the first `len` bytes of `bytes` (at most sixty-four).
#[derive(Clone, Copy, Debug)]
pub struct NonFungibleLocalId {
    pub kind: LocalIdKind,
    pub len: u8,
    pub bytes: [u8; 64],
}

impl NonFungibleLocalId {
    /// Whether two local ids are the same.
    pub fn equals(&self, other: &Self) -> (r: bool)
        ensures
            r == (*self == *other),
    {
        if self.kind != other.kind || self.len != other.len {
            return false;
        }
        let mut i: usize = 0;
        while i < 64
            invariant
                i <= 64,
                forall|j: int| 0 <= j < i ==> self.bytes[j] == other.bytes[j],
            decreases 64 - i,
        {
            if self.bytes[i] != other.bytes[i] {
                return false;
            }
            i = i + 1;
        }
        assert(self.bytes =~= other.bytes);
        true
    }
}

/// Whether the local ids have no repeat.
pub fn ids_distinct(ids: &Vec<NonFungibleLocalId>) -> (r: bool)
    ensures
        r == ids@.no_duplicates(),
{
    let n = ids.len();
    let mut i: usize = 0;
    while i < n
        invariant
            n == ids.len(),
            i <= n,
            forall|a: int, b: int| 0 <= a < i && 0 <= b < n && a != b ==> ids@[a] != ids@[b],
        decreases n - i,
    {
        let mut j: usize = 0;
        while j < n
            invariant
                n == ids.len(),
                i < n,
                j <= n,
                forall|a: int, b: int| 0 <= a < i && 0 <= b < n && a != b ==> ids@[a] != ids@[b],
                forall|b: int| 0 <= b < j && b != i ==> ids@[i as int] != ids@[b],
            decreases n - j,
        {
            if j != i && ids[i].equals(&ids[j]) {
                return false;
            }
            j = j + 1;
        }
        i = i + 1;
    }
    true
}

/// The global id of a non-fungible token: its resource and its local id.
#[derive(Clone, Copy, Debug)]
pub struct NonFungibleGlobalId {
    pub resource_address: ResourceAddress,
    pub local_id: NonFungibleLocalId,
}

impl NonFungibleGlobalId {
    /// The global id of the token `local_id` of the resource `resource_address`.
    pub fn new(resource_address: ResourceAddress, local_id: NonFungibleLocalId) -> (r: Self)
        ensures
            r.resource_address == resource_address,
            r.local_id == local_id,
    {
        NonFungibleGlobalId { resource_address, local_id }
    }
}

/// What the ledger reports of a resource's type.
#[derive(Clone, Copy, Debug, PartialEq, Eq, Structural)]
pub enum ResourceType {
    /// A fungible resource, divisible to `divisibility` decimal places.
    Fungible { divisibility: u8 },
    /// A non-fungible resource.
    NonFungible,
}

/// A bucket of a fungible resource: its resource and the amount it holds.
#[derive(Clone, Copy, Debug)]
pub struct FungibleBucket {
    pub resource_address: ResourceAddress,
    pub amount: Decimal,
}

/// A bucket, or a vault, of non-fungible tokens of one resource: the resource
/// and the local ids of the tokens it holds, in order.
#[derive(Debug)]
pub struct NonFungibleBucket {
    pub resource_address: ResourceAddress,
    pub ids: Vec<NonFungibleLocalId>,
}

/// What a bucket of non-fungible tokens holds: its resource and its ids.
pub type Holding = (ResourceAddress, Seq<NonFungibleLocalId>);

impl View for NonFungibleBucket {
    type V = Holding;

    open spec fn view(&self) -> Holding {
        (self.resource_address, self.ids@)
    }
}

/// The holdings of a sequence of buckets.
pub open spec fn holdings(buckets: Seq<NonFungibleBucket>) -> Seq<Holding> {
    buckets.map_values(|b: NonFungibleBucket| b@)
}

/// A copy of a vector of local ids.
pub fn copy_ids(ids: &Vec<NonFungibleLocalId>, count: usize) -> (r: Vec<NonFungibleLocalId>)
    requires
        count <= ids.len(),
    ensures
        r@ == ids@.take(count as int),
{
    let mut r: Vec<NonFungibleLocalId> = Vec::new();
    let mut i: usize = 0;
    while i < count
        invariant
            i <= count <= ids.len(),
            r@ == ids@.take(i as int),
        decreases count - i,
    {
        r.push(ids[i]);
        i = i + 1;
        assert(r@ =~= ids@.take(i as int));
    }
    r
}

} // verus!
