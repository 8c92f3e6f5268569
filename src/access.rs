use vstd::prelude::*;

use crate::archetype::{lemma_sorted_set_eq, strictly_sorted};
use crate::entity::ENTITY_ID_UUID;
use crate::world::{insert_sorted, World};

verus! {

/// How a store is to be locked: shared with other readers, or exclusively.
#[derive(Debug, Clone, Copy, PartialEq, Eq, Structural)]
pub enum AccessMode {
    Shared,
    Exclusive,
}

/// One entry of an access request: a component type and how to lock it.
#[derive(Debug, Clone, Copy, PartialEq, Eq, Structural)]
pub struct AccessRequest {
    pub uuid: u128,
    pub mode: AccessMode,
}

/// The types of a list of requests, in order.
pub open spec fn request_uuids(reqs: Seq<AccessRequest>) -> Seq<u128> {
    reqs.map_values(|q: AccessRequest| q.uuid)
}

/// The mode in which type `u` must be locked for `reqs`: exclusively if any
/// entry for it asks so.
pub open spec fn merged_mode(reqs: Seq<AccessRequest>, u: u128) -> AccessMode {
    if exists|k: int| 0 <= k < reqs.len() && reqs[k].uuid == u && reqs[k].mode == AccessMode::Exclusive {
        AccessMode::Exclusive
    } else {
        AccessMode::Shared
    }
}

impl<V> World<V> {
    /// The world has a store for type `t`; the store of ids always exists.
    pub open spec fn stored(&self, t: u128) -> bool {
        t == ENTITY_ID_UUID || self.has_store(t)
    }
}

/// `plan` is the order in which the stores of `reqs` are locked: each
/// requested type once, in increasing order of identity, each in the mode
/// its entries ask for.
pub open spec fn is_plan(reqs: Seq<AccessRequest>, plan: Seq<AccessRequest>) -> bool {
    &&& strictly_sorted(request_uuids(plan))
    &&& request_uuids(plan).to_set() == request_uuids(reqs).to_set()
    &&& forall|q: int| 0 <= q < plan.len() ==> (#[trigger] plan[q]).mode == merged_mode(reqs, plan[q].uuid)
}

/// The lock plan for `requests`, or `None` when some requested type has no
/// store yet: no entity carries it, so there is nothing to do.
///
/// Whatever order the caller lists the types in, the plan takes them in
/// increasing order of identity, so that two requests that share types
/// always lock the shared stores in the same relative order.
pub fn get<V>(world: &World<V>, requests: &[AccessRequest]) -> (r: Option<Vec<AccessRequest>>)
    requires
        world.wf(),
    ensures
        match r {
            Some(plan) => (forall|k: int| 0 <= k < requests@.len() ==> world.stored(#[trigger] requests@[k].uuid))
                && is_plan(requests@, plan@),
            None => exists|k: int| 0 <= k < requests@.len() && !world.stored(#[trigger] requests@[k].uuid),
        },
{
    let mut key: Vec<u128> = Vec::new();
    let mut k: usize = 0;
    assert(key@.to_set() =~= Set::<u128>::empty());
    while k < requests.len()
        invariant
            0 <= k <= requests@.len(),
            world.wf(),
            strictly_sorted(key@),
            key@.to_set() == request_uuids(requests@.subrange(0, k as int)).to_set(),
            forall|m: int| 0 <= m < k ==> world.stored(#[trigger] requests@[m].uuid),
        decreases requests.len() - k,
    {
        let u = requests[k].uuid;
        if u != ENTITY_ID_UUID {
            if world.find_store(u).is_none() {
                return None;
            }
        }
        insert_sorted(&mut key, u);
        proof {
            let a = request_uuids(requests@.subrange(0, k as int));
            let b = request_uuids(requests@.subrange(0, k as int + 1));
            assert(b =~= a.push(u));
            assert forall|x: u128| b.to_set().contains(x) <==> a.to_set().insert(u).contains(x) by {
                if b.contains(x) {
                    let j = choose|j: int| 0 <= j < b.len() && b[j] == x;
                    if j < a.len() {
                        assert(a[j] == x);
                    }
                }
                if a.contains(x) {
                    let j = choose|j: int| 0 <= j < a.len() && a[j] == x;
                    assert(b[j] == x);
                }
                if x == u {
                    assert(b[k as int] == x);
                }
            }
            assert(key@.to_set() =~= b.to_set());
        }
        k = k + 1;
    }
    assert(requests@.subrange(0, k as int) =~= requests@);
    let mut plan: Vec<AccessRequest> = Vec::new();
    let mut q: usize = 0;
    while q < key.len()
        invariant
            0 <= q <= key@.len(),
            plan@.len() == q,
            forall|m: int| 0 <= m < q ==> (#[trigger] plan@[m]).uuid == key@[m] && plan@[m].mode == merged_mode(
                requests@,
                key@[m],
            ),
        decreases key.len() - q,
    {
        let u = key[q];
        let mut mode = AccessMode::Shared;
        let mut j: usize = 0;
        while j < requests.len()
            invariant
                0 <= j <= requests@.len(),
                mode == (if exists|m: int|
                    0 <= m < j && requests@[m].uuid == u && requests@[m].mode == AccessMode::Exclusive {
                    AccessMode::Exclusive
                } else {
                    AccessMode::Shared
                }),
            decreases requests.len() - j,
        {
            if requests[j].uuid == u && requests[j].mode == AccessMode::Exclusive {
                mode = AccessMode::Exclusive;
            }
            j = j + 1;
        }
        plan.push(AccessRequest { uuid: u, mode });
        q = q + 1;
    }
    proof {
        assert(request_uuids(plan@) =~= key@);
    }
    Some(plan)
}

/// Two requests over the same set of types lock their stores in the same
/// order, whatever order each lists them in: no two holders of a shared
/// pair of stores can each wait for the other.
pub proof fn lemma_lock_order(
    r1: Seq<AccessRequest>,
    r2: Seq<AccessRequest>,
    p1: Seq<AccessRequest>,
    p2: Seq<AccessRequest>,
)
    requires
        is_plan(r1, p1),
        is_plan(r2, p2),
        request_uuids(r1).to_set() == request_uuids(r2).to_set(),
    ensures
        request_uuids(p1) == request_uuids(p2),
{
    lemma_sorted_set_eq(request_uuids(p1), request_uuids(p2));
}

} // verus!
