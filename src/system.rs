use vstd::prelude::*;

use crate::access::{self, is_plan, AccessRequest};
use crate::world::{has_types, World};

verus! {

/// What the querying phase of a system hands to its acting phase: the
/// archetypes to visit and the order in which to lock their stores.
pub struct SystemProps {
    pub archetypes: Vec<usize>,
    pub plan: Vec<AccessRequest>,
}

/// The querying phase of a system that needs the types `required` and
/// locks `requests`. It is skipped (`None`) when no archetype holds every
/// required type, or when a requested type has no store yet; neither is an
/// error. Otherwise the matching archetypes and the lock plan are handed on.
pub fn call_system<V>(world: &World<V>, required: &[u128], requests: &[AccessRequest]) -> (r: Option<
    SystemProps,
>)
    requires
        world.wf(),
    ensures
        match r {
            None => (forall|a: int| 0 <= a < world.archs().len() ==> !has_types(#[trigger] world.archs()[a], required@))
                || exists|k: int| 0 <= k < requests@.len() && !world.stored(#[trigger] requests@[k].uuid),
            Some(props) => {
                &&& props.archetypes@.len() > 0
                &&& forall|k: int| 0 <= k < props.archetypes@.len() ==> #[trigger] props.archetypes@[k] < world.archs().len()
                &&& forall|k1: int, k2: int| 0 <= k1 < k2 < props.archetypes@.len() ==> props.archetypes@[k1] < props.archetypes@[k2]
                &&& forall|a: int| 0 <= a < world.archs().len() ==> (props.archetypes@.contains(a as usize) <==> has_types(#[trigger] world.archs()[a], required@))
                &&& forall|k: int| 0 <= k < requests@.len() ==> world.stored(#[trigger] requests@[k].uuid)
                &&& is_plan(requests@, props.plan@)
            },
        },
{
    let archetypes = world.query_with(required);
    if archetypes.len() == 0 {
        proof {
            assert forall|a: int| 0 <= a < world.archs().len() implies !has_types(#[trigger] world.archs()[a], required@) by {
                if has_types(world.archs()[a], required@) {
                    assert(archetypes@.contains(a as usize));
                }
            }
        }
        return None;
    }
    match access::get(world, requests) {
        Some(plan) => Some(SystemProps { archetypes, plan }),
        None => None,
    }
}

} // verus!
