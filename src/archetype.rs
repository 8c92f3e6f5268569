use vstd::prelude::*;

use crate::entity::ENTITY_ID_UUID;

verus! {

/// Each value is smaller than the next: a sorted set without repeats.
pub open spec fn strictly_sorted(s: Seq<u128>) -> bool {
    forall|i: int, j: int| 0 <= i < j < s.len() ==> s[i] < s[j]
}

/// Two strictly sorted sequences with the same elements are equal.
pub proof fn lemma_sorted_set_eq(a: Seq<u128>, b: Seq<u128>)
    requires
        strictly_sorted(a),
        strictly_sorted(b),
        a.to_set() == b.to_set(),
    ensures
        a == b,
    decreases a.len(),
{
    if a.len() == 0 {
        if b.len() > 0 {
            assert(b.to_set().contains(b[0]));
        }
        assert(a =~= b);
    } else if b.len() == 0 {
        assert(a.to_set().contains(a[0]));
    } else {
        assert(b.to_set().contains(a[0]));
        assert(a.to_set().contains(b[0]));
        let k = choose|k: int| 0 <= k < b.len() && b[k] == a[0];
        let m = choose|m: int| 0 <= m < a.len() && a[m] == b[0];
        assert(a[0] == b[0]);
        let a1 = a.drop_first();
        let b1 = b.drop_first();
        assert forall|x: u128| a1.to_set().contains(x) <==> b1.to_set().contains(x) by {
            if a1.to_set().contains(x) {
                let i = choose|i: int| 0 <= i < a1.len() && a1[i] == x;
                assert(a[i + 1] == x);
                assert(a.to_set().contains(x));
                assert(b.to_set().contains(x));
                let j = choose|j: int| 0 <= j < b.len() && b[j] == x;
                assert(j != 0);
                assert(b1[j - 1] == x);
            }
            if b1.to_set().contains(x) {
                let i = choose|i: int| 0 <= i < b1.len() && b1[i] == x;
                assert(b[i + 1] == x);
                assert(b.to_set().contains(x));
                assert(a.to_set().contains(x));
                let j = choose|j: int| 0 <= j < a.len() && a[j] == x;
                assert(j != 0);
                assert(a1[j - 1] == x);
            }
        }
        assert(a1.to_set() =~= b1.to_set());
        lemma_sorted_set_eq(a1, b1);
        assert(a =~= b1.insert(0, b[0]));
        assert(b =~= b1.insert(0, b[0]));
    }
}

/// The storage group of all entities that carry exactly one set of component
/// types. For each type of its composition it lists, in order, the chunks of
/// that type's store that hold its rows.
pub struct Archetype {
    key: Vec<u128>,
    chunk_ids: Vec<Vec<usize>>,
}

impl Archetype {
    /// The composition: the type identities, in increasing order.
    pub closed spec fn key(&self) -> Seq<u128> {
        self.key@
    }

    /// Per position of the composition, the chunk indices of that type.
    pub closed spec fn lists(&self) -> Seq<Seq<usize>> {
        self.chunk_ids@.map_values(|v: Vec<usize>| v@)
    }

    pub closed spec fn wf(&self) -> bool {
        &&& self.key@.len() == self.chunk_ids@.len()
        &&& strictly_sorted(self.key@)
    }

    /// The composition as a set.
    pub open spec fn types(&self) -> Set<u128> {
        self.key().to_set()
    }

    pub proof fn lemma_wf(&self)
        requires
            self.wf(),
        ensures
            self.key().len() == self.lists().len(),
            strictly_sorted(self.key()),
    {
    }

    /// The composition, in increasing order.
    pub fn composition(&self) -> (r: &Vec<u128>)
        ensures
            r@ == self.key(),
    {
        &self.key
    }
}

/// The position of `uuid` in the composition.
pub open spec fn position_of(key: Seq<u128>, uuid: u128) -> int {
    choose|i: int| 0 <= i < key.len() && key[i] == uuid
}

/// Where `uuid` stands in the composition of `archetype`, if it is there.
pub fn find(archetype: &Archetype, uuid: u128) -> (r: Option<usize>)
    requires
        archetype.wf(),
    ensures
        match r {
            Some(i) => i < archetype.key().len() && archetype.key()[i as int] == uuid,
            None => !archetype.types().contains(uuid),
        },
{
    let mut i: usize = 0;
    while i < archetype.key.len()
        invariant
            0 <= i <= archetype.key@.len(),
            forall|m: int| 0 <= m < i ==> archetype.key@[m] != uuid,
        decreases archetype.key.len() - i,
    {
        if archetype.key[i] == uuid {
            return Some(i);
        }
        i = i + 1;
    }
    None
}

/// The chunk indices that hold this archetype's values of type
/// `component_uuid`, or `None` when the type is not in its composition.
pub fn chunk_ids(archetype: &Archetype, component_uuid: u128) -> (r: Option<&[usize]>)
    requires
        archetype.wf(),
    ensures
        match r {
            Some(ids) => exists|i: int|
                0 <= i < archetype.key().len() && archetype.key()[i] == component_uuid
                    && ids@ == archetype.lists()[i],
            None => !archetype.types().contains(component_uuid),
        },
{
    match find(archetype, component_uuid) {
        Some(i) => Some(archetype.chunk_ids[i].as_slice()),
        None => None,
    }
}

/// The chunk indices at position `i` of the composition.
pub fn chunk_ids_at(archetype: &Archetype, i: usize) -> (r: &Vec<usize>)
    requires
        archetype.wf(),
        i < archetype.key().len(),
    ensures
        r@ == archetype.lists()[i as int],
{
    &archetype.chunk_ids[i]
}

/// Records that chunk `chunk_id` of the store of `type_uuid` now holds rows of
/// this archetype. A type outside the composition changes nothing.
pub fn add_chunk_id(archetype: &mut Archetype, type_uuid: u128, chunk_id: usize)
    requires
        old(archetype).wf(),
    ensures
        final(archetype).wf(),
        final(archetype).key() == old(archetype).key(),
        !old(archetype).types().contains(type_uuid) ==> final(archetype).lists() == old(archetype).lists(),
        old(archetype).types().contains(type_uuid) ==> final(archetype).lists() == old(archetype).lists().update(
            position_of(old(archetype).key(), type_uuid),
            old(archetype).lists()[position_of(old(archetype).key(), type_uuid)].push(chunk_id),
        ),
{
    match find(archetype, type_uuid) {
        Some(i) => {
            let ghost k = archetype.key@;
            proof {
                assert(k[i as int] == type_uuid);
                let p = position_of(k, type_uuid);
                assert(0 <= p < k.len() && k[p] == type_uuid);
                if p != i {
                    if p < i {
                        assert(k[p] < k[i as int]);
                    } else {
                        assert(k[i as int] < k[p]);
                    }
                }
            }
            archetype.chunk_ids[i].push(chunk_id);
            proof {
                assert(archetype.lists() =~= old(archetype).lists().update(
                    i as int,
                    old(archetype).lists()[i as int].push(chunk_id),
                ));
            }
        },
        None => {},
    }
}

/// Whether the composition holds the type `uuid`.
pub fn has(archetype: &Archetype, uuid: u128) -> (r: bool)
    requires
        archetype.wf(),
    ensures
        r == archetype.types().contains(uuid),
{
    find(archetype, uuid).is_some()
}

/// Whether the composition holds every type of `uuids`.
pub fn has_all(archetype: &Archetype, uuids: &[u128]) -> (r: bool)
    requires
        archetype.wf(),
    ensures
        r == (forall|i: int| 0 <= i < uuids@.len() ==> archetype.types().contains(#[trigger] uuids@[i])),
{
    let mut i: usize = 0;
    while i < uuids.len()
        invariant
            0 <= i <= uuids@.len(),
            archetype.wf(),
            forall|m: int| 0 <= m < i ==> archetype.types().contains(#[trigger] uuids@[m]),
        decreases uuids.len() - i,
    {
        let present = has(archetype, uuids[i]);
        if !present {
            return false;
        }
        i = i + 1;
    }
    true
}

/// Whether the archetype is the one of entities that carry nothing but
/// their id.
pub fn is_empty(archetype: &Archetype) -> (r: bool)
    requires
        archetype.wf(),
    ensures
        r == (archetype.key() == seq![ENTITY_ID_UUID]),
{
    if archetype.key.len() == 1 {
        let r = archetype.key[0] == ENTITY_ID_UUID;
        proof {
            if r {
                assert(archetype.key() =~= seq![ENTITY_ID_UUID]);
            }
        }
        r
    } else {
        false
    }
}

/// An archetype for the composition `components_info`, with no chunks yet.
pub fn new(components_info: Vec<u128>) -> (r: Archetype)
    requires
        strictly_sorted(components_info@),
    ensures
        r.wf(),
        r.key() == components_info@,
        r.lists().len() == components_info@.len(),
        forall|i: int| 0 <= i < r.lists().len() ==> (#[trigger] r.lists()[i]).len() == 0,
{
    let mut chunk_ids: Vec<Vec<usize>> = Vec::new();
    let mut i: usize = 0;
    while i < components_info.len()
        invariant
            0 <= i <= components_info@.len(),
            chunk_ids@.len() == i,
            forall|m: int| 0 <= m < i ==> (#[trigger] chunk_ids@[m])@.len() == 0,
        decreases components_info.len() - i,
    {
        chunk_ids.push(Vec::new());
        i = i + 1;
    }
    Archetype { key: components_info, chunk_ids }
}

/// The archetype of entities that carry nothing but their id.
pub fn new_empty() -> (r: Archetype)
    ensures
        r.wf(),
        r.key() == seq![ENTITY_ID_UUID],
        r.lists() == seq![Seq::<usize>::empty()],
{
    let mut key: Vec<u128> = Vec::new();
    key.push(ENTITY_ID_UUID);
    let r = new(key);
    assert(r.lists()[0] =~= Seq::<usize>::empty());
    assert(r.lists() =~= seq![Seq::<usize>::empty()]);
    r
}

} // verus!
