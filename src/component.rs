use vstd::prelude::*;

use crate::chunk::{self, ComponentsChunk, CHUNK_CAPACITY};
use crate::type_info::TypeInfo;

verus! {

/// A component value together with the identity of its type: the form in
/// which values of any type travel towards the store that owns the type.
pub struct AnyComponent<TComponent> {
    pub uuid: u128,
    pub value: TComponent,
}

/// All chunks of one component type, shared by every archetype that uses it.
/// A chunk keeps its index for the life of the store.
pub struct Components<TComponent> {
    type_uuid: u128,
    chunks: Vec<ComponentsChunk<TComponent>>,
}

/// Why a push into a store was refused. Either one means that the caller's
/// bookkeeping and the store disagree.
#[derive(Debug, Clone, Copy, PartialEq, Eq, Structural)]
pub enum PushError {
    InvalidComponentType { expected: TypeInfo },
    InvalidChunkIndex { index: usize },
}

/// Where a pushed value landed: the chunk's index in its store and the slot
/// in that chunk.
#[derive(Debug, Clone, Copy, PartialEq, Eq, Structural)]
pub struct ComponentAddress {
    pub chunk_idx: usize,
    pub component_idx: usize,
}

/// The chunk index of an address.
pub fn chunk_idx(component_address: &ComponentAddress) -> (r: usize)
    ensures
        r == component_address.chunk_idx,
{
    component_address.chunk_idx
}

/// What a successful push did: it opened a new chunk, which the caller must
/// record, or it filled a slot of a chunk the caller already knew.
#[derive(Debug, Clone, Copy, PartialEq, Eq, Structural)]
pub enum PushComponentAction {
    NewChunk { address: ComponentAddress },
    PushToChunk { address: ComponentAddress },
}

impl PushComponentAction {
    pub open spec fn address(self) -> ComponentAddress {
        match self {
            PushComponentAction::NewChunk { address } => address,
            PushComponentAction::PushToChunk { address } => address,
        }
    }
}

/// `new` is `old` with values only appended: same type, no chunk lost, and
/// every chunk keeps its values in their slots.
pub open spec fn grows<T>(old: Components<T>, new: Components<T>) -> bool {
    &&& new.uuid() == old.uuid()
    &&& new.chunks().len() >= old.chunks().len()
    &&& forall|c: int|
        0 <= c < old.chunks().len() ==> old.chunks()[c].items().len() <= (#[trigger] new.chunks()[c]).items().len()
            && new.chunks()[c].items().subrange(0, old.chunks()[c].items().len() as int) == old.chunks()[c].items()
}

/// Growth composes.
pub proof fn lemma_grows_trans<T>(a: Components<T>, b: Components<T>, c: Components<T>)
    requires
        grows(a, b),
        grows(b, c),
    ensures
        grows(a, c),
{
    assert forall|k: int| 0 <= k < a.chunks().len() implies a.chunks()[k].items().len() <= (
    #[trigger] c.chunks()[k]).items().len() && c.chunks()[k].items().subrange(0, a.chunks()[k].items().len() as int)
        == a.chunks()[k].items() by {
        let n = a.chunks()[k].items().len() as int;
        assert(b.chunks()[k].items().subrange(0, n) == a.chunks()[k].items());
        assert(c.chunks()[k].items().subrange(0, b.chunks()[k].items().len() as int) == b.chunks()[k].items());
        assert(c.chunks()[k].items().subrange(0, n) =~= b.chunks()[k].items().subrange(0, n));
    }
}

/// Every store grows from itself.
pub proof fn lemma_grows_refl<T>(a: Components<T>)
    ensures
        grows(a, a),
{
    assert forall|k: int| 0 <= k < a.chunks().len() implies a.chunks()[k].items().len() <= (
    #[trigger] a.chunks()[k]).items().len() && a.chunks()[k].items().subrange(0, a.chunks()[k].items().len() as int)
        == a.chunks()[k].items() by {
        assert(a.chunks()[k].items().subrange(0, a.chunks()[k].items().len() as int) =~= a.chunks()[k].items());
    }
}

/// The first position at or after `i` in `ids` whose chunk does not exist or
/// is not sealed; `ids.len()` when every one from `i` on is an existing,
/// sealed chunk.
pub open spec fn first_stop<T>(chunks: Seq<ComponentsChunk<T>>, ids: Seq<usize>, i: int) -> int
    decreases ids.len() - i,
{
    if i < 0 || i >= ids.len() {
        ids.len() as int
    } else if ids[i] >= chunks.len() || !chunks[ids[i] as int].is_sealed() {
        i
    } else {
        first_stop(chunks, ids, i + 1)
    }
}

impl<TComponent> Components<TComponent> {
    /// The identity of the component type this store holds.
    pub closed spec fn uuid(&self) -> u128 {
        self.type_uuid
    }

    /// The chunks, by index.
    pub closed spec fn chunks(&self) -> Seq<ComponentsChunk<TComponent>> {
        self.chunks@
    }

    /// Every chunk is well formed and has the standard capacity.
    pub open spec fn wf(&self) -> bool {
        forall|c: int|
            0 <= c < self.chunks().len() ==> (#[trigger] self.chunks()[c]).wf()
                && self.chunks()[c].cap() == CHUNK_CAPACITY
    }

    /// The identity of the component type this store holds.
    pub fn type_uuid(&self) -> (r: u128)
        ensures
            r == self.uuid(),
    {
        self.type_uuid
    }

    /// The number of chunks.
    pub fn chunk_count(&self) -> (r: usize)
        ensures
            r == self.chunks().len(),
    {
        self.chunks.len()
    }
}

/// An empty store for the component type `type_uuid`.
pub fn new<TComponent>(type_uuid: u128) -> (r: Components<TComponent>)
    ensures
        r.wf(),
        r.uuid() == type_uuid,
        r.chunks().len() == 0,
{
    Components { type_uuid, chunks: Vec::new() }
}

/// The chunk at `chunk_id`, if the store has one there.
pub fn chunk<TComponent>(components: &Components<TComponent>, chunk_id: usize) -> (r: Option<
    &ComponentsChunk<TComponent>,
>)
    ensures
        chunk_id < components.chunks().len() ==> r == Some(&components.chunks()[chunk_id as int]),
        chunk_id >= components.chunks().len() ==> r.is_none(),
{
    if chunk_id < components.chunks.len() {
        Some(&components.chunks[chunk_id])
    } else {
        None
    }
}

/// Replaces the value in slot `slot` of chunk `chunk_id`.
pub fn set_component<TComponent>(
    components: &mut Components<TComponent>,
    chunk_id: usize,
    slot: usize,
    value: TComponent,
)
    requires
        old(components).wf(),
        chunk_id < old(components).chunks().len(),
        slot < old(components).chunks()[chunk_id as int].items().len(),
    ensures
        final(components).wf(),
        final(components).uuid() == old(components).uuid(),
        final(components).chunks().len() == old(components).chunks().len(),
        forall|c: int|
            0 <= c < old(components).chunks().len() && c != chunk_id ==> #[trigger] final(components).chunks()[c] == old(components).chunks()[c],
        final(components).chunks()[chunk_id as int].items() == old(components).chunks()[chunk_id as int].items().update(slot as int, value),
        final(components).chunks()[chunk_id as int].cap() == CHUNK_CAPACITY,
{
    chunk::set(&mut components.chunks[chunk_id], slot, value);
}

/// Pushes a value whose type is only known by its identity.
///
/// The value must be of the store's type. The candidate chunks are tried in
/// order: the first one that is not sealed takes the value. A candidate that
/// the store does not have is an error. When every candidate is sealed, a new
/// chunk is opened at the end of the store and takes the value.
pub fn push_component<TComponent>(
    components: &mut Components<TComponent>,
    component: AnyComponent<TComponent>,
    chunk_idxes: &[usize],
) -> (r: Result<PushComponentAction, PushError>)
    requires
        old(components).wf(),
    ensures
        final(components).wf(),
        final(components).uuid() == old(components).uuid(),
        grows(*old(components), *final(components)),
        ({
            let chunks = old(components).chunks();
            let ids = chunk_idxes@;
            let k = first_stop(chunks, ids, 0);
            if component.uuid != old(components).uuid() {
                &&& r == Err::<PushComponentAction, PushError>(
                    PushError::InvalidComponentType {
                        expected: TypeInfo { id: old(components).uuid() },
                    },
                )
                &&& final(components).chunks() == chunks
            } else if k < ids.len() && ids[k] >= chunks.len() {
                &&& r == Err::<PushComponentAction, PushError>(
                    PushError::InvalidChunkIndex { index: ids[k] },
                )
                &&& final(components).chunks() == chunks
            } else if k < ids.len() {
                &&& r == Ok::<PushComponentAction, PushError>(
                    PushComponentAction::PushToChunk {
                        address: ComponentAddress {
                            chunk_idx: ids[k],
                            component_idx: chunks[ids[k] as int].items().len() as usize,
                        },
                    },
                )
                &&& final(components).chunks().len() == chunks.len()
                &&& forall|c: int|
                    0 <= c < chunks.len() && c != ids[k] ==> #[trigger] final(components).chunks()[c] == chunks[c]
                &&& final(components).chunks()[ids[k] as int].items() == chunks[ids[k] as int].items().push(
                    component.value,
                )
            } else {
                &&& r == Ok::<PushComponentAction, PushError>(
                    PushComponentAction::NewChunk {
                        address: ComponentAddress { chunk_idx: chunks.len() as usize, component_idx: 0 },
                    },
                )
                &&& final(components).chunks().len() == chunks.len() + 1
                &&& chunks.len() < usize::MAX
                &&& forall|c: int|
                    0 <= c < chunks.len() ==> #[trigger] final(components).chunks()[c] == chunks[c]
                &&& final(components).chunks()[chunks.len() as int].items() == seq![component.value]
            }
        }),
{
    proof {
        lemma_grows_refl(*components);
    }
    if component.uuid != components.type_uuid {
        return Err(PushError::InvalidComponentType { expected: TypeInfo::from_type(components.type_uuid) });
    }
    let ghost chunks0 = components.chunks@;
    let ghost ids = chunk_idxes@;
    let value = component.value;
    let mut i: usize = 0;
    while i < chunk_idxes.len()
        invariant
            components.chunks@ == chunks0,
            chunks0 == old(components).chunks@,
            components.type_uuid == old(components).type_uuid,
            old(components).type_uuid == component.uuid,
            components.wf(),
            ids == chunk_idxes@,
            value == component.value,
            grows(*old(components), *components),
            forall|c: int|
                0 <= c < chunks0.len() ==> #[trigger] chunks0[c].wf() && chunks0[c].cap() == CHUNK_CAPACITY,
            0 <= i <= ids.len(),
            first_stop(chunks0, ids, 0) == first_stop(chunks0, ids, i as int),
        decreases chunk_idxes.len() - i,
    {
        let idx = chunk_idxes[i];
        if idx >= components.chunks.len() {
            return Err(PushError::InvalidChunkIndex { index: idx });
        }
        assert(components.chunks()[idx as int].wf());
        if !chunk::is_full_filled(&components.chunks[idx]) {
            let component_idx = chunk::push(&mut components.chunks[idx], value);
            proof {
                assert(components.chunks@ == chunks0.update(idx as int, components.chunks@[idx as int]));
                assert(components.chunks()[idx as int].wf());
                assert(first_stop(chunks0, ids, i as int) == i);
                assert forall|c: int| 0 <= c < chunks0.len() implies chunks0[c].items().len() <= (
                #[trigger] components.chunks()[c]).items().len() && components.chunks()[c].items().subrange(
                    0,
                    chunks0[c].items().len() as int,
                ) == chunks0[c].items() by {
                    if c == idx {
                        assert(components.chunks()[c].items().subrange(0, chunks0[c].items().len() as int)
                            =~= chunks0[c].items());
                    } else {
                        assert(components.chunks()[c] == chunks0[c]);
                        assert(chunks0[c].items().subrange(0, chunks0[c].items().len() as int) =~= chunks0[c].items());
                    }
                }
                assert forall|c: int|
                    0 <= c < chunks0.len() implies #[trigger] components.chunks()[c].wf()
                        && components.chunks()[c].cap() == CHUNK_CAPACITY by {
                    if c != idx {
                        assert(components.chunks()[c] == chunks0[c]);
                    }
                }
            }
            return Ok(
                PushComponentAction::PushToChunk { address: ComponentAddress { chunk_idx: idx, component_idx } },
            );
        }
        i = i + 1;
    }
    let mut fresh = chunk::new_with_capacity(CHUNK_CAPACITY);
    let component_idx = chunk::push(&mut fresh, value);
    let ghost fresh_view = fresh;
    components.chunks.push(fresh);
    let chunk_idx = components.chunks.len() - 1;
    proof {
        assert(components.chunks() == chunks0.push(fresh_view));
        assert forall|c: int| 0 <= c < chunks0.len() implies chunks0[c].items().len() <= (
        #[trigger] components.chunks()[c]).items().len() && components.chunks()[c].items().subrange(
            0,
            chunks0[c].items().len() as int,
        ) == chunks0[c].items() by {
            assert(components.chunks()[c] == chunks0[c]);
            assert(chunks0[c].items().subrange(0, chunks0[c].items().len() as int) =~= chunks0[c].items());
        }
        assert forall|c: int|
            0 <= c < components.chunks().len() implies #[trigger] components.chunks()[c].wf()
                && components.chunks()[c].cap() == CHUNK_CAPACITY by {
            if c < chunks0.len() {
                assert(components.chunks()[c] == chunks0[c]);
            }
        }
    }
    Ok(PushComponentAction::NewChunk { address: ComponentAddress { chunk_idx, component_idx } })
}

} // verus!
