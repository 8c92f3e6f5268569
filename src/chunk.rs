use vstd::prelude::*;

verus! {

/// The number of slots of every chunk that a component store allocates.
pub const CHUNK_CAPACITY: usize = 32;

/// A fixed-capacity, append-only run of values of one component type.
pub struct ComponentsChunk<TComponent> {
    components: Vec<TComponent>,
    capacity: usize,
}

impl<TComponent> ComponentsChunk<TComponent> {
    /// The values held, in the order they were pushed.
    pub closed spec fn items(&self) -> Seq<TComponent> {
        self.components@
    }

    /// The number of values the chunk can hold before it is sealed.
    pub closed spec fn cap(&self) -> nat {
        self.capacity as nat
    }

    /// A chunk never holds more than its capacity.
    pub open spec fn wf(&self) -> bool {
        self.items().len() <= self.cap()
    }

    pub open spec fn is_sealed(&self) -> bool {
        self.items().len() >= self.cap()
    }
}

/// An empty chunk with room for `capacity` values.
pub fn new_with_capacity<TComponent>(capacity: usize) -> (r: ComponentsChunk<TComponent>)
    ensures
        r.wf(),
        r.items() == Seq::<TComponent>::empty(),
        r.cap() == capacity,
{
    ComponentsChunk { components: Vec::with_capacity(capacity), capacity }
}

/// The values of the chunk.
pub fn components<TComponent>(chunk: &ComponentsChunk<TComponent>) -> (r: &[TComponent])
    ensures
        r@ == chunk.items(),
{
    chunk.components.as_slice()
}

/// The values of the chunk, for in-place change; the chunk keeps its length
/// and capacity.
pub fn components_mut<TComponent>(chunk: &mut ComponentsChunk<TComponent>) -> (r: &mut [TComponent])
    ensures
        r@ == old(chunk).items(),
        final(chunk).items() == final(r)@,
        final(chunk).cap() == old(chunk).cap(),
{
    chunk.components.as_mut_slice()
}

/// Whether the chunk is sealed: it holds as many values as its capacity.
pub fn is_full_filled<TComponent>(chunk: &ComponentsChunk<TComponent>) -> (r: bool)
    requires
        chunk.wf(),
    ensures
        r == chunk.is_sealed(),
        r == (chunk.items().len() == chunk.cap()),
{
    chunk.capacity <= chunk.components.len()
}

/// Appends `component` to a chunk that is not sealed; returns its slot.
pub fn push<TComponent>(chunk: &mut ComponentsChunk<TComponent>, component: TComponent) -> (r: usize)
    requires
        old(chunk).wf(),
        !old(chunk).is_sealed(),
    ensures
        final(chunk).wf(),
        final(chunk).items() == old(chunk).items().push(component),
        final(chunk).cap() == old(chunk).cap(),
        r == old(chunk).items().len(),
{
    chunk.components.push(component);
    chunk.components.len() - 1
}

/// Replaces the value at `slot`.
pub fn set<TComponent>(chunk: &mut ComponentsChunk<TComponent>, slot: usize, component: TComponent)
    requires
        old(chunk).wf(),
        slot < old(chunk).items().len(),
    ensures
        final(chunk).wf(),
        final(chunk).items() == old(chunk).items().update(slot as int, component),
        final(chunk).cap() == old(chunk).cap(),
{
    chunk.components.set(slot, component);
}

} // verus!
