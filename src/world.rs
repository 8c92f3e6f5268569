use vstd::prelude::*;

use crate::archetype::{self, Archetype, lemma_sorted_set_eq, position_of, strictly_sorted};
use crate::chunk::{ComponentsChunk, CHUNK_CAPACITY};
use crate::component::{self, AnyComponent, Components, PushComponentAction, first_stop, grows, lemma_grows_refl, lemma_grows_trans};
use crate::entity::{self, EntityId, ENTITY_ID_UUID};

verus! {

/// What one entity was given: its id and, per component type, its value.
pub struct Row<V> {
    pub id: EntityId,
    pub values: Map<u128, V>,
}

/// Where chunk `p` of a run of chunks ends, for `n` values in all.
pub open spec fn chunk_end(p: int, n: int) -> int {
    if p * CHUNK_CAPACITY + CHUNK_CAPACITY <= n {
        p * CHUNK_CAPACITY + CHUNK_CAPACITY
    } else {
        n
    }
}

/// The chunks `ids` of a store hold the values `vals` in order: every chunk
/// but the last is full, and the last is not empty.
pub open spec fn layout<T>(chunks: Seq<ComponentsChunk<T>>, ids: Seq<usize>, vals: Seq<T>) -> bool {
    &&& vals.len() <= ids.len() * CHUNK_CAPACITY
    &&& (ids.len() == 0 || (ids.len() - 1) * CHUNK_CAPACITY < vals.len())
    &&& forall|p: int| 0 <= p < ids.len() ==> #[trigger] ids[p] < chunks.len()
    &&& forall|p: int|
        0 <= p < ids.len() ==> chunks[#[trigger] ids[p] as int].items() == vals.subrange(
            p * CHUNK_CAPACITY,
            chunk_end(p, vals.len() as int),
        )
}

/// The values of type `t` of the rows, in order.
pub open spec fn column<V>(rows: Seq<Row<V>>, t: u128) -> Seq<V> {
    rows.map_values(|r: Row<V>| r.values[t])
}

/// The ids of the rows, in order.
pub open spec fn id_column<V>(rows: Seq<Row<V>>) -> Seq<EntityId> {
    rows.map_values(|r: Row<V>| r.id)
}

/// The type identities of a bag of components, in order.
pub open spec fn uuids<V>(bag: Seq<AnyComponent<V>>) -> Seq<u128> {
    bag.map_values(|c: AnyComponent<V>| c.uuid)
}

/// A bag without repeated types and without an entity id: of each type the
/// first value stays, and any component that claims the id's type is dropped.
pub open spec fn dedup<V>(bag: Seq<AnyComponent<V>>) -> Seq<AnyComponent<V>>
    decreases bag.len(),
{
    if bag.len() == 0 {
        bag
    } else {
        let d = dedup(bag.drop_last());
        let c = bag.last();
        if c.uuid == ENTITY_ID_UUID || uuids(d).contains(c.uuid) {
            d
        } else {
            d.push(c)
        }
    }
}

/// The values of a bag, by type.
pub open spec fn bag_map<V>(bag: Seq<AnyComponent<V>>) -> Map<u128, V>
    decreases bag.len(),
{
    if bag.len() == 0 {
        Map::empty()
    } else {
        bag_map(bag.drop_last()).insert(bag.last().uuid, bag.last().value)
    }
}

/// The composition of an entity given `bag`: its types and the id's type.
pub open spec fn composition_of<V>(bag: Seq<AnyComponent<V>>) -> Set<u128> {
    uuids(dedup(bag)).to_set().insert(ENTITY_ID_UUID)
}

/// The whole world: the archetype index, one store per component type, and
/// the store of entity ids.
pub struct World<V> {
    archetypes: Vec<Archetype>,
    stores: Vec<Components<V>>,
    entity_store: Components<EntityId>,
    entities: Vec<EntityId>,
    rows: Ghost<Seq<Seq<Row<V>>>>,
}

impl<V> World<V> {
    /// The archetypes, by index.
    pub closed spec fn archs(&self) -> Seq<Archetype> {
        self.archetypes@
    }

    /// The stores of the component types other than the id's.
    pub closed spec fn stores(&self) -> Seq<Components<V>> {
        self.stores@
    }

    /// The store of entity ids.
    pub closed spec fn id_store(&self) -> Components<EntityId> {
        self.entity_store
    }

    /// Every id handed out, in order.
    pub closed spec fn entities(&self) -> Seq<EntityId> {
        self.entities@
    }

    /// Per archetype, the rows it holds, in the order they were inserted.
    pub closed spec fn rows(&self) -> Seq<Seq<Row<V>>> {
        self.rows@
    }

    /// Whether some store holds the type `t`.
    pub open spec fn has_store(&self, t: u128) -> bool {
        exists|s: int| 0 <= s < self.stores().len() && (#[trigger] self.stores()[s]).uuid() == t
    }

    /// The index of the store of type `t`.
    pub open spec fn store_at(&self, t: u128) -> int {
        choose|s: int| 0 <= s < self.stores().len() && (#[trigger] self.stores()[s]).uuid() == t
    }

    /// The chunks that hold type `t`.
    pub open spec fn chunks_of(&self, t: u128) -> Seq<ComponentsChunk<V>> {
        self.stores()[self.store_at(t)].chunks()
    }

    /// The rows of archetype `a` whose column `t` is laid out: those of
    /// `rows`, plus `extra` where `a` is `target` and `t` is in `done`.
    pub open spec fn rows_for(
        &self,
        rows: Seq<Seq<Row<V>>>,
        a: int,
        t: u128,
        target: int,
        extra: Row<V>,
        done: Set<u128>,
    ) -> Seq<Row<V>> {
        if a == target && done.contains(t) {
            rows[a].push(extra)
        } else {
            rows[a]
        }
    }

    /// Every column of every archetype is laid out in its store.
    pub open spec fn layouts(
        &self,
        rows: Seq<Seq<Row<V>>>,
        target: int,
        extra: Row<V>,
        done: Set<u128>,
    ) -> bool {
        forall|a: int, i: int|
            0 <= a < self.archs().len() && 0 <= i < self.archs()[a].key().len() ==> {
                let t = #[trigger] self.archs()[a].key()[i];
                let rs = self.rows_for(rows, a, t, target, extra, done);
                let ids = self.archs()[a].lists()[i];
                &&& (t == ENTITY_ID_UUID ==> layout(self.id_store().chunks(), ids, id_column(rs)))
                &&& (t != ENTITY_ID_UUID ==> self.has_store(t) && layout(
                    self.chunks_of(t),
                    ids,
                    column(rs, t),
                ))
            }
    }

    /// No chunk of a store is listed twice, by one archetype or by two.
    pub open spec fn disjoint(&self) -> bool {
        forall|a1: int, i1: int, p1: int, a2: int, i2: int, p2: int|
            0 <= a1 < self.archs().len() && 0 <= i1 < self.archs()[a1].key().len() && 0 <= p1
                < self.archs()[a1].lists()[i1].len() && 0 <= a2 < self.archs().len() && 0 <= i2
                < self.archs()[a2].key().len() && 0 <= p2 < self.archs()[a2].lists()[i2].len()
                && self.archs()[a1].key()[i1] == self.archs()[a2].key()[i2]
                && #[trigger] self.archs()[a1].lists()[i1][p1]
                == #[trigger] self.archs()[a2].lists()[i2][p2] ==> a1 == a2 && i1 == i2 && p1 == p2
    }

    /// The shape of the index and of the stores, without the layouts.
    pub open spec fn shape(&self) -> bool {
        &&& forall|a: int| 0 <= a < self.archs().len() ==> (#[trigger] self.archs()[a]).wf()
        &&& forall|a: int|
            0 <= a < self.archs().len() ==> (#[trigger] self.archs()[a]).types().contains(ENTITY_ID_UUID)
        &&& forall|a1: int, a2: int|
            0 <= a1 < self.archs().len() && 0 <= a2 < self.archs().len() && a1 != a2
                ==> #[trigger] self.archs()[a1].key() != #[trigger] self.archs()[a2].key()
        &&& forall|s: int| 0 <= s < self.stores().len() ==> (#[trigger] self.stores()[s]).wf()
        &&& forall|s: int|
            0 <= s < self.stores().len() ==> (#[trigger] self.stores()[s]).uuid() != ENTITY_ID_UUID
        &&& forall|s1: int, s2: int|
            0 <= s1 < self.stores().len() && 0 <= s2 < self.stores().len() && s1 != s2
                ==> #[trigger] self.stores()[s1].uuid() != #[trigger] self.stores()[s2].uuid()
        &&& self.id_store().wf()
        &&& self.id_store().uuid() == ENTITY_ID_UUID
        &&& self.rows().len() == self.archs().len()
        &&& self.entities().no_duplicates()
        &&& forall|a: int| 0 <= a < self.archs().len() ==> (#[trigger] self.rows()[a]).len() <= self.entities().len()
        &&& forall|a: int, r: int|
            0 <= a < self.archs().len() && 0 <= r < self.rows()[a].len() ==> self.entities().contains(
                (#[trigger] self.rows()[a][r]).id,
            )
        &&& forall|a1: int, r1: int, a2: int, r2: int|
            0 <= a1 < self.archs().len() && 0 <= r1 < self.rows()[a1].len() && 0 <= a2 < self.archs().len()
                && 0 <= r2 < self.rows()[a2].len() && (a1 != a2 || r1 != r2) ==> (#[trigger] self.rows()[a1][r1]).id
                != (#[trigger] self.rows()[a2][r2]).id
        &&& forall|a: int, r: int|
            0 <= a < self.archs().len() && 0 <= r < self.rows()[a].len() ==> (
            #[trigger] self.rows()[a][r]).values.dom() == self.archs()[a].types().remove(
                ENTITY_ID_UUID,
            )
    }

    /// The world's invariant.
    pub open spec fn wf(&self) -> bool {
        &&& self.shape()
        &&& self.disjoint()
        &&& self.layouts(self.rows(), -1, arbitrary(), Set::empty())
        &&& self.owned()
    }

    /// Some archetype lists chunk `c` of the store of type `t`.
    pub open spec fn listed(&self, t: u128, c: int) -> bool {
        exists|a: int, i: int, p: int|
            0 <= a < self.archs().len() && 0 <= i < self.archs()[a].key().len() && 0 <= p
                < self.archs()[a].lists()[i].len() && self.archs()[a].key()[i] == t
                && #[trigger] self.archs()[a].lists()[i][p] == c
    }

    /// Every chunk of every store belongs to an archetype.
    pub open spec fn owned(&self) -> bool {
        &&& forall|s: int, c: int|
            0 <= s < self.stores().len() && 0 <= c < self.stores()[s].chunks().len() ==> #[trigger] self.listed(
                self.stores()[s].uuid(),
                c,
            )
        &&& forall|c: int| 0 <= c < self.id_store().chunks().len() ==> #[trigger] self.listed(ENTITY_ID_UUID, c)
    }
}

/// `w1`'s archetypes extend `w0`'s: none is lost, and each keeps its
/// composition and the chunks it listed, at the same positions.
pub open spec fn archs_extend<V>(w0: World<V>, w1: World<V>) -> bool {
    &&& w1.archs().len() >= w0.archs().len()
    &&& forall|a: int|
        0 <= a < w0.archs().len() ==> (#[trigger] w1.archs()[a]).key() == w0.archs()[a].key()
            && w1.archs()[a].lists().len() == w0.archs()[a].lists().len()
    &&& forall|a: int, i: int, p: int|
        0 <= a < w0.archs().len() && 0 <= i < w0.archs()[a].lists().len() && 0 <= p < w0.archs()[a].lists()[i].len()
            ==> w1.archs()[a].lists()[i].len() >= w0.archs()[a].lists()[i].len()
            && #[trigger] w1.archs()[a].lists()[i][p] == w0.archs()[a].lists()[i][p]
}

/// Ownership carries over when the archetypes extend and no store gains a
/// chunk.
proof fn lemma_owned_carry<V>(w0: World<V>, w1: World<V>)
    requires
        w0.shape(),
        w0.owned(),
        archs_extend(w0, w1),
        w1.stores().len() == w0.stores().len(),
        forall|s: int| 0 <= s < w0.stores().len() ==> (#[trigger] w1.stores()[s]).uuid() == w0.stores()[s].uuid()
            && w1.stores()[s].chunks().len() == w0.stores()[s].chunks().len(),
        w1.id_store().chunks().len() == w0.id_store().chunks().len(),
    ensures
        w1.owned(),
{
    assert forall|s: int, c: int|
        0 <= s < w1.stores().len() && 0 <= c < w1.stores()[s].chunks().len() implies #[trigger] w1.listed(
            w1.stores()[s].uuid(),
            c,
        ) by {
        assert(w1.stores()[s].uuid() == w0.stores()[s].uuid());
        assert(w0.listed(w0.stores()[s].uuid(), c));
        lemma_listed_mono(w0, w1, w0.stores()[s].uuid(), c);
    }
    assert forall|c: int| 0 <= c < w1.id_store().chunks().len() implies #[trigger] w1.listed(ENTITY_ID_UUID, c) by {
        assert(w0.listed(ENTITY_ID_UUID, c));
        lemma_listed_mono(w0, w1, ENTITY_ID_UUID, c);
    }
}

/// Unchanged archetypes extend themselves.
proof fn lemma_extend_same<V>(w0: World<V>, w1: World<V>)
    requires
        w1.archs() == w0.archs(),
    ensures
        archs_extend(w0, w1),
{
}

/// A listed chunk stays listed when the archetypes extend.
proof fn lemma_listed_mono<V>(w0: World<V>, w1: World<V>, t: u128, c: int)
    requires
        w0.shape(),
        archs_extend(w0, w1),
        w0.listed(t, c),
    ensures
        w1.listed(t, c),
{
    let (a, i, p) = choose|a: int, i: int, p: int|
        0 <= a < w0.archs().len() && 0 <= i < w0.archs()[a].key().len() && 0 <= p < w0.archs()[a].lists()[i].len()
            && w0.archs()[a].key()[i] == t && #[trigger] w0.archs()[a].lists()[i][p] == c;
    w0.archs()[a].lemma_wf();
    assert(w1.archs()[a].lists()[i][p] == c);
    assert(w1.archs()[a].key()[i] == t);
}



/// Every candidate from `i` up to `k` is an existing, sealed chunk, and `k`
/// is not: the scan stops at `k`.
proof fn lemma_first_stop<T>(chunks: Seq<ComponentsChunk<T>>, ids: Seq<usize>, i: int, k: int)
    requires
        0 <= i <= k <= ids.len(),
        forall|p: int| i <= p < k ==> #[trigger] ids[p] < chunks.len() && chunks[ids[p] as int].is_sealed(),
        k < ids.len() ==> ids[k] < chunks.len() && !chunks[ids[k] as int].is_sealed(),
    ensures
        first_stop(chunks, ids, i) == k,
    decreases k - i,
{
    if i < k {
        lemma_first_stop(chunks, ids, i + 1, k);
    }
}

/// Chunks that the layout does not list may change, and chunks may be added:
/// the layout still holds.
proof fn lemma_layout_frame<T>(
    chunks: Seq<ComponentsChunk<T>>,
    chunks2: Seq<ComponentsChunk<T>>,
    ids: Seq<usize>,
    vals: Seq<T>,
)
    requires
        layout(chunks, ids, vals),
        chunks2.len() >= chunks.len(),
        forall|p: int| 0 <= p < ids.len() ==> chunks2[#[trigger] ids[p] as int] == chunks[ids[p] as int],
    ensures
        layout(chunks2, ids, vals),
{
    assert forall|p: int| 0 <= p < ids.len() implies chunks2[#[trigger] ids[p] as int].items()
        == vals.subrange(p * CHUNK_CAPACITY, chunk_end(p, vals.len() as int)) by {
        assert(chunks2[ids[p] as int] == chunks[ids[p] as int]);
    }
}

/// The shape of the chunks of a layout: all but the last are sealed, and the
/// last is sealed exactly when the values fill every chunk.
proof fn lemma_layout_sealed<T>(chunks: Seq<ComponentsChunk<T>>, ids: Seq<usize>, vals: Seq<T>)
    requires
        layout(chunks, ids, vals),
        forall|c: int| 0 <= c < chunks.len() ==> (#[trigger] chunks[c]).cap() == CHUNK_CAPACITY,
    ensures
        vals.len() == ids.len() * CHUNK_CAPACITY ==> first_stop(chunks, ids, 0) == ids.len(),
        vals.len() < ids.len() * CHUNK_CAPACITY ==> first_stop(chunks, ids, 0) == ids.len() - 1,
{
    let n = vals.len() as int;
    let m = ids.len() as int;
    assert forall|p: int| 0 <= p < m && (p < m - 1 || n == m * CHUNK_CAPACITY) implies #[trigger] ids[p]
        < chunks.len() && chunks[ids[p] as int].is_sealed() by {
        assert(p * CHUNK_CAPACITY + CHUNK_CAPACITY <= n) by (nonlinear_arith)
            requires
                0 <= p < m,
                p < m - 1 || n == m * CHUNK_CAPACITY,
                (m - 1) * CHUNK_CAPACITY < n,
                CHUNK_CAPACITY == 32,
        ;
        assert(chunks[ids[p] as int].items().len() == CHUNK_CAPACITY);
    }
    if n == m * CHUNK_CAPACITY {
        lemma_first_stop(chunks, ids, 0, m);
    } else if n < m * CHUNK_CAPACITY {
        assert(m > 0);
        let last = m - 1;
        assert(ids[last] < chunks.len());
        assert(chunks[ids[last] as int].items().len() == n - last * CHUNK_CAPACITY);
        lemma_first_stop(chunks, ids, 0, last);
    }
}

/// A value pushed into the last chunk of a layout that still has room.
proof fn lemma_layout_push_into<T>(
    chunks: Seq<ComponentsChunk<T>>,
    chunks2: Seq<ComponentsChunk<T>>,
    ids: Seq<usize>,
    vals: Seq<T>,
    x: T,
)
    requires
        layout(chunks, ids, vals),
        vals.len() < ids.len() * CHUNK_CAPACITY,
        forall|p: int| 0 <= p < ids.len() - 1 ==> #[trigger] ids[p] != ids[ids.len() - 1],
        chunks2.len() == chunks.len(),
        forall|c: int| 0 <= c < chunks.len() && c != ids[ids.len() - 1] ==> #[trigger] chunks2[c] == chunks[c],
        chunks2[ids[ids.len() - 1] as int].items() == chunks[ids[ids.len() - 1] as int].items().push(x),
    ensures
        layout(chunks2, ids, vals.push(x)),
{
    let n = vals.len() as int;
    let m = ids.len() as int;
    let last = m - 1;
    let vals2 = vals.push(x);
    assert forall|p: int| 0 <= p < ids.len() implies chunks2[#[trigger] ids[p] as int].items()
        == vals2.subrange(p * CHUNK_CAPACITY, chunk_end(p, vals2.len() as int)) by {
        if p < last {
            assert(p * CHUNK_CAPACITY + CHUNK_CAPACITY <= n) by (nonlinear_arith)
                requires
                    0 <= p < last,
                    last * CHUNK_CAPACITY < n,
                    CHUNK_CAPACITY == 32,
            ;
            assert(chunks2[ids[p] as int] == chunks[ids[p] as int]);
            assert(vals2.subrange(p * CHUNK_CAPACITY, chunk_end(p, n + 1)) =~= vals.subrange(
                p * CHUNK_CAPACITY,
                chunk_end(p, n),
            ));
        } else {
            assert(p == last);
            assert(chunk_end(p, n + 1) == n + 1);
            assert(chunk_end(p, n) == n);
            assert(vals2.subrange(p * CHUNK_CAPACITY, n + 1) =~= vals.subrange(p * CHUNK_CAPACITY, n).push(x));
        }
    }
}

/// A value pushed into a new chunk appended after a full layout.
proof fn lemma_layout_push_new<T>(
    chunks: Seq<ComponentsChunk<T>>,
    chunks2: Seq<ComponentsChunk<T>>,
    ids: Seq<usize>,
    vals: Seq<T>,
    x: T,
)
    requires
        layout(chunks, ids, vals),
        vals.len() == ids.len() * CHUNK_CAPACITY,
        chunks.len() < usize::MAX,
        chunks2.len() == chunks.len() + 1,
        forall|c: int| 0 <= c < chunks.len() ==> #[trigger] chunks2[c] == chunks[c],
        chunks2[chunks.len() as int].items() == seq![x],
    ensures
        layout(chunks2, ids.push(chunks.len() as usize), vals.push(x)),
{
    let n = vals.len() as int;
    let m = ids.len() as int;
    let ids2 = ids.push(chunks.len() as usize);
    let vals2 = vals.push(x);
    assert forall|p: int| 0 <= p < ids2.len() implies #[trigger] ids2[p] < chunks2.len() by {
        if p < m {
            assert(ids2[p] == ids[p]);
        }
    }
    assert forall|p: int| 0 <= p < ids2.len() implies chunks2[#[trigger] ids2[p] as int].items()
        == vals2.subrange(p * CHUNK_CAPACITY, chunk_end(p, vals2.len() as int)) by {
        if p < m {
            assert(ids2[p] == ids[p]);
            assert(p * CHUNK_CAPACITY + CHUNK_CAPACITY <= n) by (nonlinear_arith)
                requires
                    0 <= p < m,
                    n == m * CHUNK_CAPACITY,
                    CHUNK_CAPACITY == 32,
            ;
            assert(vals2.subrange(p * CHUNK_CAPACITY, chunk_end(p, n + 1)) =~= vals.subrange(
                p * CHUNK_CAPACITY,
                chunk_end(p, n),
            ));
        } else {
            assert(p == m);
            assert(chunk_end(p, n + 1) == n + 1);
            assert(vals2.subrange(p * CHUNK_CAPACITY, n + 1) =~= seq![x]);
        }
    }
}


/// Whether two compositions are the same sequence of types.
fn same_key(a: &Vec<u128>, b: &Vec<u128>) -> (r: bool)
    ensures
        r == (a@ == b@),
{
    if a.len() != b.len() {
        return false;
    }
    let mut i: usize = 0;
    while i < a.len()
        invariant
            a@.len() == b@.len(),
            0 <= i <= a@.len(),
            forall|m: int| 0 <= m < i ==> a@[m] == b@[m],
        decreases a.len() - i,
    {
        if a[i] != b[i] {
            return false;
        }
        i = i + 1;
    }
    assert(a@ =~= b@);
    true
}

/// Inserts `u` into a strictly sorted sequence, unless it is there already.
pub fn insert_sorted(key: &mut Vec<u128>, u: u128)
    requires
        strictly_sorted(old(key)@),
    ensures
        strictly_sorted(final(key)@),
        final(key)@.to_set() == old(key)@.to_set().insert(u),
{
    let ghost k0 = key@;
    let mut i: usize = 0;
    while i < key.len() && key[i] < u
        invariant
            0 <= i <= key@.len(),
            key@ == k0,
            strictly_sorted(k0),
            forall|m: int| 0 <= m < i ==> k0[m] < u,
        decreases key.len() - i,
    {
        i = i + 1;
    }
    if i < key.len() && key[i] == u {
        assert(key@.to_set() =~= key@.to_set().insert(u)) by {
            assert(key@.to_set().contains(u));
        }
        return;
    }
    key.insert(i, u);
    assert(key@ == k0.insert(i as int, u));
    assert forall|i1: int, j1: int| 0 <= i1 < j1 < key@.len() implies key@[i1] < key@[j1] by {
        if j1 < i {
        } else if i1 < i && j1 == i {
        } else if i1 < i {
            assert(key@[j1] == k0[j1 - 1]);
        } else if i1 == i {
            assert(key@[j1] == k0[j1 - 1]);
            assert(k0[i as int] > u);
            if j1 - 1 > i {
                assert(k0[i as int] < k0[j1 - 1]);
            }
        } else {
            assert(key@[j1] == k0[j1 - 1]);
            assert(key@[i1] == k0[i1 - 1]);
        }
    }
    assert forall|x: u128| key@.to_set().contains(x) <==> k0.to_set().insert(u).contains(x) by {
        if key@.contains(x) {
            let j = choose|j: int| 0 <= j < key@.len() && key@[j] == x;
            if j < i {
                assert(k0[j] == x);
            } else if j > i {
                assert(k0[j - 1] == x);
            }
        }
        if k0.contains(x) {
            let j = choose|j: int| 0 <= j < k0.len() && k0[j] == x;
            if j < i {
                assert(key@[j] == x);
            } else {
                assert(key@[j + 1] == x);
            }
        }
        if x == u {
            assert(key@[i as int] == x);
        }
    }
    assert(key@.to_set() =~= k0.to_set().insert(u));
}

/// The bag as stored: repeated types and entity ids dropped, first value of
/// each type kept.
fn normalize<V>(components: Vec<AnyComponent<V>>) -> (r: Vec<AnyComponent<V>>)
    ensures
        r@ == dedup(components@),
{
    let ghost orig = components@;
    let mut input = components;
    let mut out: Vec<AnyComponent<V>> = Vec::new();
    let mut k: usize = 0;
    let n = input.len();
    assert(orig.subrange(0, 0) =~= Seq::<AnyComponent<V>>::empty());
    while input.len() > 0
        invariant
            0 <= k <= orig.len(),
            orig.len() == n,
            k + input@.len() == n,
            input@ == orig.subrange(k as int, orig.len() as int),
            out@ == dedup(orig.subrange(0, k as int)),
        decreases input.len(),
    {
        let c = input.remove(0);
        assert(c == orig[k as int]);
        let ghost prefix = orig.subrange(0, k as int + 1);
        assert(prefix.drop_last() =~= orig.subrange(0, k as int));
        assert(prefix.last() == c);
        let mut seen = c.uuid == ENTITY_ID_UUID;
        let mut j: usize = 0;
        while j < out.len()
            invariant
                0 <= j <= out@.len(),
                seen == (c.uuid == ENTITY_ID_UUID || exists|m: int| 0 <= m < j && out@[m].uuid == c.uuid),
            decreases out.len() - j,
        {
            if out[j].uuid == c.uuid {
                seen = true;
            }
            j = j + 1;
        }
        proof {
            if exists|m: int| 0 <= m < out@.len() && out@[m].uuid == c.uuid {
                let m = choose|m: int| 0 <= m < out@.len() && out@[m].uuid == c.uuid;
                assert(uuids(out@)[m] == c.uuid);
            }
            if uuids(out@).contains(c.uuid) {
                let m = choose|m: int| 0 <= m < uuids(out@).len() && uuids(out@)[m] == c.uuid;
                assert(out@[m].uuid == c.uuid);
            }
        }
        if !seen {
            out.push(c);
        }
        k = k + 1;
        assert(input@ =~= orig.subrange(k as int, orig.len() as int));
    }
    assert(orig.subrange(0, k as int) =~= orig);
    out
}

/// The types of a normalized bag are distinct and none is the id's.
proof fn lemma_dedup<V>(bag: Seq<AnyComponent<V>>)
    ensures
        uuids(dedup(bag)).no_duplicates(),
        !uuids(dedup(bag)).contains(ENTITY_ID_UUID),
        forall|i: int|
            0 <= i < dedup(bag).len() ==> (#[trigger] bag_map(dedup(bag)))[dedup(bag)[i].uuid]
                == dedup(bag)[i].value,
        bag_map(dedup(bag)).dom() == uuids(dedup(bag)).to_set(),
    decreases bag.len(),
{
    if bag.len() > 0 {
        lemma_dedup(bag.drop_last());
        let d = dedup(bag.drop_last());
        let c = bag.last();
        if !(c.uuid == ENTITY_ID_UUID || uuids(d).contains(c.uuid)) {
            let d2 = d.push(c);
            assert(uuids(d2) =~= uuids(d).push(c.uuid));
            assert(d2.drop_last() =~= d);
            assert forall|i: int| 0 <= i < d2.len() implies (#[trigger] bag_map(d2))[d2[i].uuid]
                == d2[i].value by {
                if i < d.len() {
                    assert(uuids(d)[i] == d[i].uuid);
                    assert(d[i].uuid != c.uuid);
                }
            }
            assert(bag_map(d2).dom() =~= uuids(d2).to_set()) by {
                assert forall|x: u128| uuids(d2).to_set().contains(x) <==> uuids(d).to_set().contains(x)
                    || x == c.uuid by {
                    if uuids(d2).contains(x) {
                        let j = choose|j: int| 0 <= j < uuids(d2).len() && uuids(d2)[j] == x;
                        if j < d.len() {
                            assert(uuids(d)[j] == x);
                        }
                    }
                    if uuids(d).contains(x) {
                        let j = choose|j: int| 0 <= j < uuids(d).len() && uuids(d)[j] == x;
                        assert(uuids(d2)[j] == x);
                    }
                    if x == c.uuid {
                        assert(uuids(d2)[d.len() as int] == x);
                    }
                }
            }
        }
    }
}

/// The composition of a normalized bag, in increasing order.
fn composition_key<V>(bag: &Vec<AnyComponent<V>>) -> (r: Vec<u128>)
    ensures
        strictly_sorted(r@),
        r@.to_set() == uuids(bag@).to_set().insert(ENTITY_ID_UUID),
{
    let mut key: Vec<u128> = Vec::new();
    key.push(ENTITY_ID_UUID);
    assert(key@.to_set() =~= Set::<u128>::empty().insert(ENTITY_ID_UUID)) by {
        assert(key@[0] == ENTITY_ID_UUID);
    }
    let mut i: usize = 0;
    while i < bag.len()
        invariant
            0 <= i <= bag@.len(),
            strictly_sorted(key@),
            key@.to_set() == uuids(bag@.subrange(0, i as int)).to_set().insert(ENTITY_ID_UUID),
        decreases bag.len() - i,
    {
        insert_sorted(&mut key, bag[i].uuid);
        proof {
            let a = uuids(bag@.subrange(0, i as int));
            let b = uuids(bag@.subrange(0, i as int + 1));
            assert(b =~= a.push(bag@[i as int].uuid));
            assert(b.to_set() =~= a.to_set().insert(bag@[i as int].uuid)) by {
                assert forall|x: u128| b.contains(x) <==> a.contains(x) || x == bag@[i as int].uuid by {
                    if b.contains(x) {
                        let j = choose|j: int| 0 <= j < b.len() && b[j] == x;
                        if j < a.len() {
                            assert(a[j] == x);
                        }
                    }
                    if a.contains(x) {
                        let j = choose|j: int| 0 <= j < a.len() && a[j] == x;
                        assert(b[j] == x);
                    }
                    if x == bag@[i as int].uuid {
                        assert(b[i as int] == x);
                    }
                }
            }
            assert(key@.to_set() =~= b.to_set().insert(ENTITY_ID_UUID));
        }
        i = i + 1;
    }
    assert(bag@.subrange(0, i as int) =~= bag@);
    key
}


/// With distinct store types, the store of type `t` is the one that has it.
proof fn lemma_store_at<V>(w: &World<V>, s: int, t: u128)
    requires
        forall|s1: int, s2: int|
            0 <= s1 < w.stores().len() && 0 <= s2 < w.stores().len() && s1 != s2
                ==> #[trigger] w.stores()[s1].uuid() != #[trigger] w.stores()[s2].uuid(),
        0 <= s < w.stores().len(),
        w.stores()[s].uuid() == t,
    ensures
        w.has_store(t),
        w.store_at(t) == s,
{
    assert(w.has_store(t));
    let s2 = w.store_at(t);
    if s2 != s {
        assert(w.stores()[s2].uuid() != w.stores()[s].uuid());
    }
}

impl<V> World<V> {
    /// The index of the store of type `t`, if there is one.
    pub fn find_store(&self, t: u128) -> (r: Option<usize>)
        requires
            self.shape(),
        ensures
            match r {
                Some(s) => self.has_store(t) && s == self.store_at(t) && self.stores()[s as int].uuid() == t,
                None => !self.has_store(t),
            },
    {
        let mut s: usize = 0;
        while s < self.stores.len()
            invariant
                0 <= s <= self.stores@.len(),
                self.shape(),
                forall|m: int| 0 <= m < s ==> (#[trigger] self.stores@[m]).uuid() != t,
            decreases self.stores.len() - s,
        {
            if self.stores[s].type_uuid() == t {
                proof {
                    lemma_store_at(self, s as int, t);
                }
                return Some(s);
            }
            s = s + 1;
        }
        None
    }

    /// The index of the archetype whose composition is `key`, if there is one.
    pub fn find_archetype(&self, key: &Vec<u128>) -> (r: Option<usize>)
        requires
            self.wf(),
        ensures
            match r {
                Some(a) => a < self.archs().len() && self.archs()[a as int].key() == key@,
                None => forall|a: int| 0 <= a < self.archs().len() ==> (#[trigger] self.archs()[a]).key() != key@,
            },
    {
        let mut a: usize = 0;
        while a < self.archetypes.len()
            invariant
                0 <= a <= self.archetypes@.len(),
                forall|m: int| 0 <= m < a ==> (#[trigger] self.archetypes@[m]).key() != key@,
            decreases self.archetypes.len() - a,
        {
            if same_key(self.archetypes[a].composition(), key) {
                return Some(a);
            }
            a = a + 1;
        }
        None
    }

    /// The store of component type `t`, created empty if the world has none:
    /// returns its index.
    pub fn add_component(&mut self, t: u128) -> (r: usize)
        requires
            old(self).wf(),
            t != ENTITY_ID_UUID,
        ensures
            final(self).wf(),
            r < final(self).stores().len(),
            final(self).has_store(t),
            r == final(self).store_at(t),
            final(self).stores()[r as int].uuid() == t,
            final(self).archs() == old(self).archs(),
            final(self).rows() == old(self).rows(),
            final(self).entities() == old(self).entities(),
            final(self).id_store() == old(self).id_store(),
            old(self).has_store(t) ==> final(self).stores() == old(self).stores(),
            !old(self).has_store(t) ==> final(self).stores().len() == old(self).stores().len() + 1
                && final(self).stores().drop_last() == old(self).stores()
                && final(self).stores().last().chunks().len() == 0,
            forall|u: u128| #[trigger] old(self).has_store(u) ==> final(self).has_store(u)
                && final(self).store_at(u) == old(self).store_at(u),
            forall|u: u128| #[trigger] final(self).has_store(u) ==> old(self).has_store(u) || u == t,
            final(self).stores().len() >= old(self).stores().len(),
            forall|s1: int| 0 <= s1 < old(self).stores().len() ==> #[trigger] final(self).stores()[s1] == old(self).stores()[s1],
    {
        match self.find_store(t) {
            Some(s) => s,
            None => {
                let ghost w0 = *self;
                let fresh = component::new(t);
                self.stores.push(fresh);
                let s = self.stores.len() - 1;
                proof {
                    assert(self.stores() == w0.stores().push(fresh));
                    assert(self.stores().drop_last() =~= w0.stores());
                    assert forall|s1: int| 0 <= s1 < w0.stores().len() implies #[trigger] self.stores()[s1] == w0.stores()[s1] by {
                    }
                    assert forall|s1: int, s2: int|
                        0 <= s1 < self.stores().len() && 0 <= s2 < self.stores().len() && s1 != s2
                            implies #[trigger] self.stores()[s1].uuid() != #[trigger] self.stores()[s2].uuid() by {
                        if s1 < w0.stores().len() && s2 < w0.stores().len() {
                            assert(w0.stores()[s1].uuid() != w0.stores()[s2].uuid());
                        } else if s1 < w0.stores().len() {
                            assert(w0.has_store(w0.stores()[s1].uuid()));
                        } else if s2 < w0.stores().len() {
                            assert(w0.has_store(w0.stores()[s2].uuid()));
                        }
                    }
                    lemma_store_at(self, s as int, t);
                    assert forall|s1: int, c: int|
                        0 <= s1 < self.stores().len() && 0 <= c < self.stores()[s1].chunks().len() implies #[trigger] self.listed(
                            self.stores()[s1].uuid(),
                            c,
                        ) by {
                        assert(s1 < w0.stores().len());
                        assert(self.stores()[s1] == w0.stores()[s1]);
                        assert(w0.listed(w0.stores()[s1].uuid(), c));
                        lemma_extend_same(w0, *self);
                        lemma_listed_mono(w0, *self, w0.stores()[s1].uuid(), c);
                    }
                    assert forall|c: int| 0 <= c < self.id_store().chunks().len() implies #[trigger] self.listed(ENTITY_ID_UUID, c) by {
                        assert(w0.listed(ENTITY_ID_UUID, c));
                        lemma_extend_same(w0, *self);
                        lemma_listed_mono(w0, *self, ENTITY_ID_UUID, c);
                    }
                    assert forall|u: u128| #[trigger] self.has_store(u) implies w0.has_store(u) || u == t by {
                        let s1 = choose|s1: int| 0 <= s1 < self.stores().len() && (#[trigger] self.stores()[s1]).uuid() == u;
                        if s1 < w0.stores().len() {
                            assert(w0.stores()[s1] == self.stores()[s1]);
                        }
                    }
                    assert forall|u: u128| #[trigger] w0.has_store(u) implies self.has_store(u)
                        && self.store_at(u) == w0.store_at(u) by {
                        let s0 = w0.store_at(u);
                        assert(self.stores()[s0] == w0.stores()[s0]);
                        lemma_store_at(self, s0, u);
                    }
                    assert forall|s1: int| 0 <= s1 < self.stores().len() implies (#[trigger] self.stores()[s1]).wf()
                        && self.stores()[s1].uuid() != ENTITY_ID_UUID by {
                        if s1 < w0.stores().len() {
                            assert(self.stores()[s1] == w0.stores()[s1]);
                        }
                    }
                    assert forall|a: int, i: int|
                        0 <= a < self.archs().len() && 0 <= i < self.archs()[a].key().len() implies {
                            let t1 = #[trigger] self.archs()[a].key()[i];
                            let rs = self.rows_for(self.rows(), a, t1, -1, arbitrary(), Set::empty());
                            let ids = self.archs()[a].lists()[i];
                            &&& (t1 == ENTITY_ID_UUID ==> layout(self.id_store().chunks(), ids, id_column(rs)))
                            &&& (t1 != ENTITY_ID_UUID ==> self.has_store(t1) && layout(
                                self.chunks_of(t1),
                                ids,
                                column(rs, t1),
                            ))
                        } by {
                        let t1 = w0.archs()[a].key()[i];
                        if t1 != ENTITY_ID_UUID {
                            assert(w0.has_store(t1));
                            assert(self.chunks_of(t1) == w0.chunks_of(t1));
                        }
                    }
                }
                s
            },
        }
    }
}


impl<V> World<V> {
    /// The index of the archetype of composition `key`, created with no rows
    /// if the world has none.
    pub fn resolve_archetype(&mut self, key: Vec<u128>) -> (r: usize)
        requires
            old(self).wf(),
            strictly_sorted(key@),
            key@.contains(ENTITY_ID_UUID),
            forall|i: int| 0 <= i < key@.len() && key@[i] != ENTITY_ID_UUID ==> old(self).has_store(#[trigger] key@[i]),
        ensures
            final(self).wf(),
            r < final(self).archs().len(),
            final(self).archs()[r as int].key() == key@,
            final(self).stores() == old(self).stores(),
            final(self).entities() == old(self).entities(),
            final(self).id_store() == old(self).id_store(),
            final(self).archs().len() >= old(self).archs().len(),
            final(self).archs().subrange(0, old(self).archs().len() as int) == old(self).archs(),
            final(self).rows().subrange(0, old(self).archs().len() as int) == old(self).rows(),
            r < old(self).archs().len() ==> final(self).archs() == old(self).archs() && final(self).rows() == old(self).rows(),
            r >= old(self).archs().len() ==> r == old(self).archs().len() && final(self).rows()[r as int].len() == 0
                && final(self).archs().len() == old(self).archs().len() + 1,
            (forall|a: int| 0 <= a < old(self).archs().len() ==> (#[trigger] old(self).archs()[a]).key() != key@)
                ==> r >= old(self).archs().len(),
    {
        match self.find_archetype(&key) {
            Some(a) => a,
            None => {
                let ghost w0 = *self;
                let arch = archetype::new(key);
                let ghost arch_v = arch;
                self.archetypes.push(arch);
                self.rows = Ghost(self.rows@.push(Seq::empty()));
                let a = self.archetypes.len() - 1;
                proof {
                    assert(self.archs() == w0.archs().push(arch_v));
                    assert(self.archs().subrange(0, w0.archs().len() as int) =~= w0.archs());
                    assert(self.rows().subrange(0, w0.archs().len() as int) =~= w0.rows());
                    assert(arch_v.types().contains(ENTITY_ID_UUID)) by {
                        let j = choose|j: int| 0 <= j < arch_v.key().len() && arch_v.key()[j] == ENTITY_ID_UUID;
                        assert(arch_v.key().to_set().contains(arch_v.key()[j]));
                    }
                    assert forall|a1: int| 0 <= a1 < self.archs().len() implies (#[trigger] self.archs()[a1]).wf()
                        && self.archs()[a1].types().contains(ENTITY_ID_UUID) by {
                        if a1 < w0.archs().len() {
                            assert(self.archs()[a1] == w0.archs()[a1]);
                        }
                    }
                    assert forall|a1: int, a2: int|
                        0 <= a1 < self.archs().len() && 0 <= a2 < self.archs().len() && a1 != a2
                            implies #[trigger] self.archs()[a1].key() != #[trigger] self.archs()[a2].key() by {
                        if a1 < w0.archs().len() && a2 < w0.archs().len() {
                            assert(w0.archs()[a1].key() != w0.archs()[a2].key());
                        } else if a1 < w0.archs().len() {
                            assert(w0.archs()[a1].key() != key@);
                        } else if a2 < w0.archs().len() {
                            assert(w0.archs()[a2].key() != key@);
                        }
                    }
                    assert forall|a1: int, r1: int|
                        0 <= a1 < self.archs().len() && 0 <= r1 < self.rows()[a1].len() implies (
                        #[trigger] self.rows()[a1][r1]).values.dom() == self.archs()[a1].types().remove(
                            ENTITY_ID_UUID,
                        ) by {
                        assert(a1 < w0.archs().len());
                        assert(self.rows()[a1] == w0.rows()[a1]);
                        assert(self.archs()[a1] == w0.archs()[a1]);
                    }
                    assert forall|a1: int, i1: int, p1: int, a2: int, i2: int, p2: int|
                        0 <= a1 < self.archs().len() && 0 <= i1 < self.archs()[a1].key().len() && 0 <= p1
                            < self.archs()[a1].lists()[i1].len() && 0 <= a2 < self.archs().len() && 0 <= i2
                            < self.archs()[a2].key().len() && 0 <= p2 < self.archs()[a2].lists()[i2].len()
                            && self.archs()[a1].key()[i1] == self.archs()[a2].key()[i2]
                            && #[trigger] self.archs()[a1].lists()[i1][p1]
                            == #[trigger] self.archs()[a2].lists()[i2][p2] implies a1 == a2 && i1 == i2 && p1 == p2 by {
                        assert(a1 < w0.archs().len());
                        assert(a2 < w0.archs().len());
                        assert(self.archs()[a1] == w0.archs()[a1]);
                        assert(self.archs()[a2] == w0.archs()[a2]);
                    }
                    assert forall|a1: int, i: int|
                        0 <= a1 < self.archs().len() && 0 <= i < self.archs()[a1].key().len() implies {
                            let t1 = #[trigger] self.archs()[a1].key()[i];
                            let rs = self.rows_for(self.rows(), a1, t1, -1, arbitrary(), Set::empty());
                            let ids = self.archs()[a1].lists()[i];
                            &&& (t1 == ENTITY_ID_UUID ==> layout(self.id_store().chunks(), ids, id_column(rs)))
                            &&& (t1 != ENTITY_ID_UUID ==> self.has_store(t1) && layout(
                                self.chunks_of(t1),
                                ids,
                                column(rs, t1),
                            ))
                        } by {
                        if a1 < w0.archs().len() {
                            assert(self.archs()[a1] == w0.archs()[a1]);
                            assert(self.rows()[a1] == w0.rows()[a1]);
                            let t0 = w0.archs()[a1].key()[i];
                            assert(self.chunks_of(t0) == w0.chunks_of(t0));
                        } else {
                            assert(self.archs()[a1] == arch_v);
                            assert(self.archs()[a1].lists()[i].len() == 0);
                            assert(self.rows()[a1].len() == 0);
                            assert(id_column(self.rows()[a1]).len() == 0);
                            assert(column(self.rows()[a1], self.archs()[a1].key()[i]).len() == 0);
                        }
                    }
                    assert(self.stores() == w0.stores());
                    assert(self.id_store() == w0.id_store());
                    assert(self.entities() == w0.entities());
                    assert(self.rows().len() == self.archs().len());
                    assert(self.shape());
                    assert(self.disjoint());
                    assert(self.layouts(self.rows(), -1, arbitrary(), Set::empty()));
                    assert forall|a1: int| 0 <= a1 < w0.archs().len() implies (#[trigger] self.archs()[a1]).key() == w0.archs()[a1].key()
                        && self.archs()[a1].lists().len() == w0.archs()[a1].lists().len() by {
                        assert(self.archs()[a1] == w0.archs()[a1]);
                    }
                    assert forall|a1: int, i1: int, p1: int|
                        0 <= a1 < w0.archs().len() && 0 <= i1 < w0.archs()[a1].lists().len() && 0 <= p1 < w0.archs()[a1].lists()[i1].len()
                            implies self.archs()[a1].lists()[i1].len() >= w0.archs()[a1].lists()[i1].len()
                            && #[trigger] self.archs()[a1].lists()[i1][p1] == w0.archs()[a1].lists()[i1][p1] by {
                        assert(self.archs()[a1] == w0.archs()[a1]);
                    }
                    lemma_owned_carry(w0, *self);
                }
                a
            },
        }
    }
}


impl<V> World<V> {
    /// Pushes one component of the entity being inserted into archetype `a`
    /// into its type's store, recording a new chunk in the archetype.
    fn push_user(&mut self, a: usize, c: AnyComponent<V>, Ghost(extra): Ghost<Row<V>>, Ghost(done): Ghost<Set<u128>>)
        requires
            old(self).shape(),
            old(self).owned(),
            old(self).disjoint(),
            old(self).layouts(old(self).rows(), a as int, extra, done),
            a < old(self).archs().len(),
            old(self).archs()[a as int].types().contains(c.uuid),
            c.uuid != ENTITY_ID_UUID,
            !done.contains(c.uuid),
            extra.values[c.uuid] == c.value,
        ensures
            final(self).shape(),
            final(self).owned(),
            final(self).disjoint(),
            final(self).layouts(final(self).rows(), a as int, extra, done.insert(c.uuid)),
            final(self).archs().len() == old(self).archs().len(),
            forall|a1: int| 0 <= a1 < old(self).archs().len() ==> (#[trigger] final(self).archs()[a1]).key()
                == old(self).archs()[a1].key(),
            final(self).rows() == old(self).rows(),
            final(self).entities() == old(self).entities(),
            final(self).id_store() == old(self).id_store(),
            final(self).stores().len() == old(self).stores().len(),
            forall|s1: int| 0 <= s1 < old(self).stores().len() ==> (#[trigger] final(self).stores()[s1]).uuid()
                == old(self).stores()[s1].uuid(),
            forall|s1: int| 0 <= s1 < old(self).stores().len() ==> grows(old(self).stores()[s1], #[trigger] final(self).stores()[s1]),
            forall|s1: int| 0 <= s1 < old(self).stores().len() && old(self).stores()[s1].uuid() != c.uuid
                ==> #[trigger] final(self).stores()[s1] == old(self).stores()[s1],
            forall|a1: int| 0 <= a1 < old(self).archs().len() && a1 != a ==> #[trigger] final(self).archs()[a1] == old(self).archs()[a1],
    {
        let ghost w0 = *self;
        let t = c.uuid;
        let ghost value = c.value;
        proof {
            let j = choose|j: int| 0 <= j < w0.archs()[a as int].key().len() && w0.archs()[a as int].key()[j] == t;
            assert(w0.archs()[a as int].key()[j] == t);
        }
        let s = match self.find_store(t) {
            Some(s) => s,
            None => {
                proof {
                    assert(false);
                }
                return;
            },
        };
        let i = match archetype::find(&self.archetypes[a], t) {
            Some(i) => i,
            None => {
                proof {
                    assert(false);
                }
                return;
            },
        };
        let ghost ids = w0.archs()[a as int].lists()[i as int];
        let ghost chunks = w0.chunks_of(t);
        let ghost vals = column(w0.rows()[a as int], t);
        proof {
            assert(w0.archs()[a as int].key()[i as int] == t);
            assert(layout(chunks, ids, vals));
            assert forall|cc: int| 0 <= cc < chunks.len() implies (#[trigger] chunks[cc]).cap() == CHUNK_CAPACITY by {
                assert(w0.stores()[s as int].wf());
                assert(w0.stores()[s as int].chunks()[cc].wf());
            }
            lemma_layout_sealed(chunks, ids, vals);
            assert forall|p: int| 0 <= p < ids.len() - 1 implies #[trigger] ids[p] != ids[ids.len() - 1] by {
                if ids[p] == ids[ids.len() - 1] {
                    assert(w0.archs()[a as int].lists()[i as int][p] == w0.archs()[a as int].lists()[i as int][ids.len() - 1]);
                }
            }
        }
        let result = component::push_component(
            &mut self.stores[s],
            c,
            archetype::chunk_ids_at(&self.archetypes[a], i).as_slice(),
        );
        let ghost chunks2 = self.stores()[s as int].chunks();
        proof {
            assert(self.stores() == w0.stores().update(s as int, self.stores()[s as int]));
            lemma_store_at(self, s as int, t);
        }
        match result {
            Ok(PushComponentAction::NewChunk { address }) => {
                archetype::add_chunk_id(&mut self.archetypes[a], t, component::chunk_idx(&address));
            },
            Ok(PushComponentAction::PushToChunk { address: _ }) => {},
            Err(_) => {
                proof {
                    assert(false);
                }
            },
        }
        proof {
            let full = vals.len() == ids.len() * CHUNK_CAPACITY;
            let new_ids = if full { ids.push(chunks.len() as usize) } else { ids };
            let a_ = a as int;
            let i_ = i as int;
            w0.archs()[a_].lemma_wf();
            assert(chunks2.len() >= chunks.len());
            if full {
                assert(position_of(w0.archs()[a_].key(), t) == i_) by {
                    let p = position_of(w0.archs()[a_].key(), t);
                    if p != i_ {
                        if p < i_ {
                            assert(w0.archs()[a_].key()[p] < w0.archs()[a_].key()[i_]);
                        } else {
                            assert(w0.archs()[a_].key()[i_] < w0.archs()[a_].key()[p]);
                        }
                    }
                }
                assert(self.archs() == w0.archs().update(a_, self.archs()[a_]));
                assert(self.archs()[a_].lists() == w0.archs()[a_].lists().update(i_, new_ids));
                lemma_layout_push_new(chunks, chunks2, ids, vals, value);
            } else {
                assert(self.archs() == w0.archs());
                lemma_layout_push_into(chunks, chunks2, ids, vals, value);
            }
            let rows_a = w0.rows()[a_].push(extra);
            assert(column(rows_a, t) =~= vals.push(value));
            let done2 = done.insert(t);
            assert forall|a1: int| 0 <= a1 < self.archs().len() implies (#[trigger] self.archs()[a1]).wf()
                && self.archs()[a1].types().contains(ENTITY_ID_UUID)
                && self.archs()[a1].key() == w0.archs()[a1].key()
                && self.archs()[a1].lists().len() == w0.archs()[a1].lists().len()
                && (a1 != a_ ==> self.archs()[a1] == w0.archs()[a1]) by {
                assert(w0.archs()[a1].wf());
            }
            assert forall|a1: int, i1: int|
                0 <= a1 < self.archs().len() && 0 <= i1 < self.archs()[a1].key().len() && !(a1 == a_ && i1 == i_)
                    implies #[trigger] self.archs()[a1].lists()[i1] == w0.archs()[a1].lists()[i1] by {
                if a1 == a_ && full {
                    assert(self.archs()[a_].lists()[i1] == w0.archs()[a_].lists()[i1]);
                }
            }
            assert forall|s1: int| 0 <= s1 < self.stores().len() implies (#[trigger] self.stores()[s1]).wf()
                && self.stores()[s1].uuid() == w0.stores()[s1].uuid()
                && (s1 != s ==> self.stores()[s1] == w0.stores()[s1]) by {
            }
            assert forall|s1: int| 0 <= s1 < self.stores().len() implies grows(w0.stores()[s1], #[trigger] self.stores()[s1]) by {
                if s1 != s {
                    lemma_grows_refl(w0.stores()[s1]);
                }
            }
            assert forall|s1: int| 0 <= s1 < self.stores().len() && w0.stores()[s1].uuid() != t implies #[trigger] self.stores()[s1] == w0.stores()[s1] by {
            }
            assert forall|u: u128| #[trigger] w0.has_store(u) implies self.has_store(u) && self.store_at(u) == w0.store_at(u) by {
                let s0 = w0.store_at(u);
                lemma_store_at(self, s0, u);
            }
            // the layouts
            assert forall|a1: int, i1: int|
                0 <= a1 < self.archs().len() && 0 <= i1 < self.archs()[a1].key().len() implies {
                    let t1 = #[trigger] self.archs()[a1].key()[i1];
                    let rs = self.rows_for(self.rows(), a1, t1, a_, extra, done2);
                    let ids1 = self.archs()[a1].lists()[i1];
                    &&& (t1 == ENTITY_ID_UUID ==> layout(self.id_store().chunks(), ids1, id_column(rs)))
                    &&& (t1 != ENTITY_ID_UUID ==> self.has_store(t1) && layout(
                        self.chunks_of(t1),
                        ids1,
                        column(rs, t1),
                    ))
                } by {
                let t1 = w0.archs()[a1].key()[i1];
                let ids1 = w0.archs()[a1].lists()[i1];
                assert(self.archs()[a1].key()[i1] == t1);
                if a1 == a_ && i1 == i_ {
                    assert(self.archs()[a1].lists()[i1] == new_ids);
                } else if t1 == t {
                    assert(a1 != a_) by {
                        if a1 == a_ {
                            if i1 < i_ {
                                assert(w0.archs()[a_].key()[i1] < w0.archs()[a_].key()[i_]);
                            } else {
                                assert(w0.archs()[a_].key()[i_] < w0.archs()[a_].key()[i1]);
                            }
                        }
                    }
                    assert(self.archs()[a1].lists()[i1] == ids1);
                    assert(layout(chunks, ids1, column(w0.rows()[a1], t)));
                    assert forall|p: int| 0 <= p < ids1.len() implies chunks2[#[trigger] ids1[p] as int] == chunks[ids1[p] as int] by {
                        if !full {
                            if ids1[p] == ids[ids.len() - 1] {
                                assert(w0.archs()[a1].lists()[i1][p] == w0.archs()[a_].lists()[i_][ids.len() - 1]);
                            }
                        }
                    }
                    lemma_layout_frame(chunks, chunks2, ids1, column(w0.rows()[a1], t));
                } else {
                    assert(self.archs()[a1].lists()[i1] == ids1);
                    assert(self.rows_for(self.rows(), a1, t1, a_, extra, done2) == w0.rows_for(w0.rows(), a1, t1, a_, extra, done));
                    if t1 != ENTITY_ID_UUID {
                        assert(w0.has_store(t1));
                        assert(w0.store_at(t1) != s);
                        assert(self.chunks_of(t1) == w0.chunks_of(t1));
                    }
                }
            }
            // no chunk listed twice
            assert forall|a1: int, i1: int, p1: int, a2: int, i2: int, p2: int|
                0 <= a1 < self.archs().len() && 0 <= i1 < self.archs()[a1].key().len() && 0 <= p1
                    < self.archs()[a1].lists()[i1].len() && 0 <= a2 < self.archs().len() && 0 <= i2
                    < self.archs()[a2].key().len() && 0 <= p2 < self.archs()[a2].lists()[i2].len()
                    && self.archs()[a1].key()[i1] == self.archs()[a2].key()[i2]
                    && #[trigger] self.archs()[a1].lists()[i1][p1]
                    == #[trigger] self.archs()[a2].lists()[i2][p2] implies a1 == a2 && i1 == i2 && p1 == p2 by {
                let old1 = p1 < w0.archs()[a1].lists()[i1].len();
                let old2 = p2 < w0.archs()[a2].lists()[i2].len();
                if old1 && old2 {
                    if a1 == a_ && i1 == i_ {
                        assert(self.archs()[a1].lists()[i1][p1] == w0.archs()[a1].lists()[i1][p1]);
                    }
                    if a2 == a_ && i2 == i_ {
                        assert(self.archs()[a2].lists()[i2][p2] == w0.archs()[a2].lists()[i2][p2]);
                    }
                    assert(w0.archs()[a1].lists()[i1][p1] == w0.archs()[a2].lists()[i2][p2]);
                } else if !old1 && !old2 {
                    if !(a1 == a_ && i1 == i_) {
                        assert(self.archs()[a1].lists()[i1] == w0.archs()[a1].lists()[i1]);
                    }
                    if !(a2 == a_ && i2 == i_) {
                        assert(self.archs()[a2].lists()[i2] == w0.archs()[a2].lists()[i2]);
                    }
                } else if !old1 {
                    if !(a1 == a_ && i1 == i_) {
                        assert(self.archs()[a1].lists()[i1] == w0.archs()[a1].lists()[i1]);
                    }
                    assert(self.archs()[a1].lists()[i1][p1] == chunks.len());
                    let t2 = w0.archs()[a2].key()[i2];
                    assert(t2 == t);
                    assert(layout(chunks, w0.archs()[a2].lists()[i2], column(w0.rows_for(w0.rows(), a2, t2, a_, extra, done), t)));
                    if a2 == a_ && i2 == i_ {
                        assert(self.archs()[a2].lists()[i2][p2] == w0.archs()[a2].lists()[i2][p2]);
                    }
                    assert(w0.archs()[a2].lists()[i2][p2] < chunks.len());
                } else {
                    if !(a2 == a_ && i2 == i_) {
                        assert(self.archs()[a2].lists()[i2] == w0.archs()[a2].lists()[i2]);
                    }
                    assert(self.archs()[a2].lists()[i2][p2] == chunks.len());
                    let t1 = w0.archs()[a1].key()[i1];
                    assert(t1 == t);
                    assert(layout(chunks, w0.archs()[a1].lists()[i1], column(w0.rows_for(w0.rows(), a1, t1, a_, extra, done), t)));
                    if a1 == a_ && i1 == i_ {
                        assert(self.archs()[a1].lists()[i1][p1] == w0.archs()[a1].lists()[i1][p1]);
                    }
                    assert(w0.archs()[a1].lists()[i1][p1] < chunks.len());
                }
            }
            assert forall|a1: int, r1: int|
                0 <= a1 < self.archs().len() && 0 <= r1 < self.rows()[a1].len() implies (
                #[trigger] self.rows()[a1][r1]).values.dom() == self.archs()[a1].types().remove(ENTITY_ID_UUID) by {
                assert(w0.rows()[a1][r1].values.dom() == w0.archs()[a1].types().remove(ENTITY_ID_UUID));
            }
            assert(self.shape());
            assert forall|a1: int| 0 <= a1 < w0.archs().len() implies (#[trigger] self.archs()[a1]).key() == w0.archs()[a1].key()
                && self.archs()[a1].lists().len() == w0.archs()[a1].lists().len() by {
            }
            assert forall|a1: int, i1: int, p1: int|
                0 <= a1 < w0.archs().len() && 0 <= i1 < w0.archs()[a1].lists().len() && 0 <= p1 < w0.archs()[a1].lists()[i1].len()
                    implies self.archs()[a1].lists()[i1].len() >= w0.archs()[a1].lists()[i1].len()
                    && #[trigger] self.archs()[a1].lists()[i1][p1] == w0.archs()[a1].lists()[i1][p1] by {
                w0.archs()[a1].lemma_wf();
                if !(a1 == a_ && i1 == i_) {
                    assert(self.archs()[a1].lists()[i1] == w0.archs()[a1].lists()[i1]);
                }
            }
            assert(archs_extend(w0, *self));
            assert forall|cc: int| 0 <= cc < chunks2.len() implies #[trigger] self.listed(t, cc) by {
                if cc < chunks.len() {
                    assert(w0.listed(t, cc));
                    lemma_listed_mono(w0, *self, t, cc);
                } else {
                    assert(full);
                    assert(self.archs()[a_].lists()[i_][ids.len() as int] == cc);
                    assert(self.archs()[a_].key()[i_] == t);
                }
            }
            assert forall|s1: int, cc: int|
                0 <= s1 < self.stores().len() && 0 <= cc < self.stores()[s1].chunks().len() implies #[trigger] self.listed(
                    self.stores()[s1].uuid(),
                    cc,
                ) by {
                if s1 != s {
                    assert(self.stores()[s1] == w0.stores()[s1]);
                    assert(w0.listed(w0.stores()[s1].uuid(), cc));
                    lemma_listed_mono(w0, *self, w0.stores()[s1].uuid(), cc);
                }
            }
            assert forall|cc: int| 0 <= cc < self.id_store().chunks().len() implies #[trigger] self.listed(ENTITY_ID_UUID, cc) by {
                assert(w0.listed(ENTITY_ID_UUID, cc));
                lemma_listed_mono(w0, *self, ENTITY_ID_UUID, cc);
            }
            assert(self.owned());
        }
    }
}


impl<V> World<V> {
    /// Pushes the id of the entity being inserted into archetype `a` into
    /// the store of ids, recording a new chunk in the archetype.
    fn push_id(&mut self, a: usize, id: EntityId, Ghost(extra): Ghost<Row<V>>, Ghost(done): Ghost<Set<u128>>)
        requires
            old(self).shape(),
            old(self).owned(),
            old(self).disjoint(),
            old(self).layouts(old(self).rows(), a as int, extra, done),
            a < old(self).archs().len(),
            !done.contains(ENTITY_ID_UUID),
            extra.id == id,
        ensures
            final(self).shape(),
            final(self).owned(),
            final(self).disjoint(),
            final(self).layouts(final(self).rows(), a as int, extra, done.insert(ENTITY_ID_UUID)),
            final(self).archs().len() == old(self).archs().len(),
            forall|a1: int| 0 <= a1 < old(self).archs().len() ==> (#[trigger] final(self).archs()[a1]).key()
                == old(self).archs()[a1].key(),
            final(self).rows() == old(self).rows(),
            final(self).entities() == old(self).entities(),
            final(self).stores() == old(self).stores(),
            grows(old(self).id_store(), final(self).id_store()),
            forall|a1: int| 0 <= a1 < old(self).archs().len() && a1 != a ==> #[trigger] final(self).archs()[a1] == old(self).archs()[a1],
    {
        let ghost w0 = *self;
        let t = ENTITY_ID_UUID;
        let i = match archetype::find(&self.archetypes[a], t) {
            Some(i) => i,
            None => {
                proof {
                    assert(false);
                }
                return;
            },
        };
        let ghost ids = w0.archs()[a as int].lists()[i as int];
        let ghost chunks = w0.id_store().chunks();
        let ghost vals = id_column(w0.rows()[a as int]);
        proof {
            assert(w0.archs()[a as int].key()[i as int] == t);
            assert(layout(chunks, ids, vals));
            assert forall|cc: int| 0 <= cc < chunks.len() implies (#[trigger] chunks[cc]).cap() == CHUNK_CAPACITY by {
                assert(w0.id_store().chunks()[cc].wf());
            }
            lemma_layout_sealed(chunks, ids, vals);
            assert forall|p: int| 0 <= p < ids.len() - 1 implies #[trigger] ids[p] != ids[ids.len() - 1] by {
                if ids[p] == ids[ids.len() - 1] {
                    assert(w0.archs()[a as int].lists()[i as int][p] == w0.archs()[a as int].lists()[i as int][ids.len() - 1]);
                }
            }
        }
        let result = component::push_component(
            &mut self.entity_store,
            AnyComponent { uuid: t, value: id },
            archetype::chunk_ids_at(&self.archetypes[a], i).as_slice(),
        );
        let ghost chunks2 = self.id_store().chunks();
        match result {
            Ok(PushComponentAction::NewChunk { address }) => {
                archetype::add_chunk_id(&mut self.archetypes[a], t, component::chunk_idx(&address));
            },
            Ok(PushComponentAction::PushToChunk { address: _ }) => {},
            Err(_) => {
                proof {
                    assert(false);
                }
            },
        }
        proof {
            let full = vals.len() == ids.len() * CHUNK_CAPACITY;
            let new_ids = if full { ids.push(chunks.len() as usize) } else { ids };
            let a_ = a as int;
            let i_ = i as int;
            w0.archs()[a_].lemma_wf();
            assert(chunks2.len() >= chunks.len());
            if full {
                assert(position_of(w0.archs()[a_].key(), t) == i_) by {
                    let p = position_of(w0.archs()[a_].key(), t);
                    if p != i_ {
                        if p < i_ {
                            assert(w0.archs()[a_].key()[p] < w0.archs()[a_].key()[i_]);
                        } else {
                            assert(w0.archs()[a_].key()[i_] < w0.archs()[a_].key()[p]);
                        }
                    }
                }
                assert(self.archs() == w0.archs().update(a_, self.archs()[a_]));
                assert(self.archs()[a_].lists() == w0.archs()[a_].lists().update(i_, new_ids));
                lemma_layout_push_new(chunks, chunks2, ids, vals, id);
            } else {
                assert(self.archs() == w0.archs());
                lemma_layout_push_into(chunks, chunks2, ids, vals, id);
            }
            let rows_a = w0.rows()[a_].push(extra);
            assert(id_column(rows_a) =~= vals.push(id));
            assert(self.stores() == w0.stores());
            assert(self.id_store().wf());
            assert(self.id_store().uuid() == ENTITY_ID_UUID);
            let done2 = done.insert(t);
            assert forall|a1: int| 0 <= a1 < self.archs().len() implies (#[trigger] self.archs()[a1]).wf()
                && self.archs()[a1].types().contains(ENTITY_ID_UUID)
                && self.archs()[a1].key() == w0.archs()[a1].key()
                && self.archs()[a1].lists().len() == w0.archs()[a1].lists().len()
                && (a1 != a_ ==> self.archs()[a1] == w0.archs()[a1]) by {
                assert(w0.archs()[a1].wf());
            }
            assert forall|a1: int, i1: int|
                0 <= a1 < self.archs().len() && 0 <= i1 < self.archs()[a1].key().len() && !(a1 == a_ && i1 == i_)
                    implies #[trigger] self.archs()[a1].lists()[i1] == w0.archs()[a1].lists()[i1] by {
                if a1 == a_ && full {
                    assert(self.archs()[a_].lists()[i1] == w0.archs()[a_].lists()[i1]);
                }
            }
            assert forall|a1: int, i1: int|
                0 <= a1 < self.archs().len() && 0 <= i1 < self.archs()[a1].key().len() implies {
                    let t1 = #[trigger] self.archs()[a1].key()[i1];
                    let rs = self.rows_for(self.rows(), a1, t1, a_, extra, done2);
                    let ids1 = self.archs()[a1].lists()[i1];
                    &&& (t1 == ENTITY_ID_UUID ==> layout(self.id_store().chunks(), ids1, id_column(rs)))
                    &&& (t1 != ENTITY_ID_UUID ==> self.has_store(t1) && layout(
                        self.chunks_of(t1),
                        ids1,
                        column(rs, t1),
                    ))
                } by {
                let t1 = w0.archs()[a1].key()[i1];
                let ids1 = w0.archs()[a1].lists()[i1];
                assert(self.archs()[a1].key()[i1] == t1);
                if a1 == a_ && i1 == i_ {
                    assert(self.archs()[a1].lists()[i1] == new_ids);
                } else if t1 == t {
                    assert(a1 != a_) by {
                        if a1 == a_ {
                            if i1 < i_ {
                                assert(w0.archs()[a_].key()[i1] < w0.archs()[a_].key()[i_]);
                            } else {
                                assert(w0.archs()[a_].key()[i_] < w0.archs()[a_].key()[i1]);
                            }
                        }
                    }
                    assert(self.archs()[a1].lists()[i1] == ids1);
                    assert(layout(chunks, ids1, id_column(w0.rows()[a1])));
                    assert forall|p: int| 0 <= p < ids1.len() implies chunks2[#[trigger] ids1[p] as int] == chunks[ids1[p] as int] by {
                        if !full {
                            if ids1[p] == ids[ids.len() - 1] {
                                assert(w0.archs()[a1].lists()[i1][p] == w0.archs()[a_].lists()[i_][ids.len() - 1]);
                            }
                        }
                    }
                    lemma_layout_frame(chunks, chunks2, ids1, id_column(w0.rows()[a1]));
                } else {
                    assert(self.archs()[a1].lists()[i1] == ids1);
                    assert(self.rows_for(self.rows(), a1, t1, a_, extra, done2) == w0.rows_for(w0.rows(), a1, t1, a_, extra, done));
                    if t1 != ENTITY_ID_UUID {
                        assert(w0.has_store(t1));
                        assert(self.chunks_of(t1) == w0.chunks_of(t1));
                    }
                }
            }
            assert forall|a1: int, i1: int, p1: int, a2: int, i2: int, p2: int|
                0 <= a1 < self.archs().len() && 0 <= i1 < self.archs()[a1].key().len() && 0 <= p1
                    < self.archs()[a1].lists()[i1].len() && 0 <= a2 < self.archs().len() && 0 <= i2
                    < self.archs()[a2].key().len() && 0 <= p2 < self.archs()[a2].lists()[i2].len()
                    && self.archs()[a1].key()[i1] == self.archs()[a2].key()[i2]
                    && #[trigger] self.archs()[a1].lists()[i1][p1]
                    == #[trigger] self.archs()[a2].lists()[i2][p2] implies a1 == a2 && i1 == i2 && p1 == p2 by {
                let old1 = p1 < w0.archs()[a1].lists()[i1].len();
                let old2 = p2 < w0.archs()[a2].lists()[i2].len();
                if old1 && old2 {
                    if a1 == a_ && i1 == i_ {
                        assert(self.archs()[a1].lists()[i1][p1] == w0.archs()[a1].lists()[i1][p1]);
                    }
                    if a2 == a_ && i2 == i_ {
                        assert(self.archs()[a2].lists()[i2][p2] == w0.archs()[a2].lists()[i2][p2]);
                    }
                    assert(w0.archs()[a1].lists()[i1][p1] == w0.archs()[a2].lists()[i2][p2]);
                } else if !old1 && !old2 {
                    if !(a1 == a_ && i1 == i_) {
                        assert(self.archs()[a1].lists()[i1] == w0.archs()[a1].lists()[i1]);
                    }
                    if !(a2 == a_ && i2 == i_) {
                        assert(self.archs()[a2].lists()[i2] == w0.archs()[a2].lists()[i2]);
                    }
                } else if !old1 {
                    if !(a1 == a_ && i1 == i_) {
                        assert(self.archs()[a1].lists()[i1] == w0.archs()[a1].lists()[i1]);
                    }
                    assert(self.archs()[a1].lists()[i1][p1] == chunks.len());
                    let t2 = w0.archs()[a2].key()[i2];
                    assert(t2 == t);
                    assert(layout(chunks, w0.archs()[a2].lists()[i2], id_column(w0.rows_for(w0.rows(), a2, t2, a_, extra, done))));
                    if a2 == a_ && i2 == i_ {
                        assert(self.archs()[a2].lists()[i2][p2] == w0.archs()[a2].lists()[i2][p2]);
                    }
                    assert(w0.archs()[a2].lists()[i2][p2] < chunks.len());
                } else {
                    if !(a2 == a_ && i2 == i_) {
                        assert(self.archs()[a2].lists()[i2] == w0.archs()[a2].lists()[i2]);
                    }
                    assert(self.archs()[a2].lists()[i2][p2] == chunks.len());
                    let t1 = w0.archs()[a1].key()[i1];
                    assert(t1 == t);
                    assert(layout(chunks, w0.archs()[a1].lists()[i1], id_column(w0.rows_for(w0.rows(), a1, t1, a_, extra, done))));
                    if a1 == a_ && i1 == i_ {
                        assert(self.archs()[a1].lists()[i1][p1] == w0.archs()[a1].lists()[i1][p1]);
                    }
                    assert(w0.archs()[a1].lists()[i1][p1] < chunks.len());
                }
            }
            assert forall|a1: int, r1: int|
                0 <= a1 < self.archs().len() && 0 <= r1 < self.rows()[a1].len() implies (
                #[trigger] self.rows()[a1][r1]).values.dom() == self.archs()[a1].types().remove(ENTITY_ID_UUID) by {
                assert(w0.rows()[a1][r1].values.dom() == w0.archs()[a1].types().remove(ENTITY_ID_UUID));
            }
            assert(self.shape());
            assert forall|a1: int| 0 <= a1 < w0.archs().len() implies (#[trigger] self.archs()[a1]).key() == w0.archs()[a1].key()
                && self.archs()[a1].lists().len() == w0.archs()[a1].lists().len() by {
            }
            assert forall|a1: int, i1: int, p1: int|
                0 <= a1 < w0.archs().len() && 0 <= i1 < w0.archs()[a1].lists().len() && 0 <= p1 < w0.archs()[a1].lists()[i1].len()
                    implies self.archs()[a1].lists()[i1].len() >= w0.archs()[a1].lists()[i1].len()
                    && #[trigger] self.archs()[a1].lists()[i1][p1] == w0.archs()[a1].lists()[i1][p1] by {
                w0.archs()[a1].lemma_wf();
                if !(a1 == a_ && i1 == i_) {
                    assert(self.archs()[a1].lists()[i1] == w0.archs()[a1].lists()[i1]);
                }
            }
            assert(archs_extend(w0, *self));
            assert forall|cc: int| 0 <= cc < chunks2.len() implies #[trigger] self.listed(t, cc) by {
                if cc < chunks.len() {
                    assert(w0.listed(t, cc));
                    lemma_listed_mono(w0, *self, t, cc);
                } else {
                    assert(full);
                    assert(self.archs()[a_].lists()[i_][ids.len() as int] == cc);
                    assert(self.archs()[a_].key()[i_] == t);
                }
            }
            assert forall|s1: int, cc: int|
                0 <= s1 < self.stores().len() && 0 <= cc < self.stores()[s1].chunks().len() implies #[trigger] self.listed(
                    self.stores()[s1].uuid(),
                    cc,
                ) by {
                assert(w0.listed(w0.stores()[s1].uuid(), cc));
                lemma_listed_mono(w0, *self, w0.stores()[s1].uuid(), cc);
            }
            assert(self.owned());
        }
    }
}


/// Why an insertion was refused.
#[derive(Debug, Clone, Copy, PartialEq, Eq, Structural)]
pub enum AddEntityError {
    /// The id was already handed out.
    DuplicateEntityId,
}

impl<V> World<V> {
    /// Some archetype has exactly the composition `k`.
    pub open spec fn holds(&self, k: Set<u128>) -> bool {
        exists|a: int| 0 <= a < self.archs().len() && (#[trigger] self.archs()[a]).types() == k
    }

    /// The rows of archetype `b`, none if the world has no such archetype.
    pub open spec fn rows_or_empty(&self, b: int) -> Seq<Row<V>> {
        if 0 <= b < self.archs().len() {
            self.rows()[b]
        } else {
            Seq::empty()
        }
    }

    /// `self` is `w0` after the entity `id` was inserted with the bag `bag`:
    /// the id is recorded, the archetype of the bag's composition exists (it
    /// was created if it did not) and has one more row holding the bag's
    /// values. Every other archetype and every other row is as it was; the
    /// stores keep their types and their values in place, gain a store for
    /// each new type of the bag and no other, and only the stores of the
    /// bag's types change.
    pub open spec fn inserted(&self, w0: World<V>, id: EntityId, bag: Seq<AnyComponent<V>>) -> bool {
        let k = composition_of(bag);
        let row = Row { id, values: bag_map(dedup(bag)) };
        &&& self.entities() == w0.entities().push(id)
        &&& self.archs().len() == w0.archs().len() + (if w0.holds(k) { 0int } else { 1int })
        &&& forall|b: int| 0 <= b < w0.archs().len() ==> (#[trigger] self.archs()[b]).key() == w0.archs()[b].key()
        &&& self.holds(k)
        &&& self.stores().len() >= w0.stores().len()
        &&& forall|s: int| 0 <= s < w0.stores().len() ==> grows(w0.stores()[s], #[trigger] self.stores()[s])
        &&& forall|s: int|
            0 <= s < w0.stores().len() && !uuids(dedup(bag)).contains(w0.stores()[s].uuid())
                ==> #[trigger] self.stores()[s] == w0.stores()[s]
        &&& forall|t: u128| #[trigger] self.has_store(t) <==> w0.has_store(t) || uuids(dedup(bag)).contains(t)
        &&& grows(w0.id_store(), self.id_store())
        &&& forall|b: int|
            0 <= b < w0.archs().len() && (#[trigger] w0.archs()[b]).types() != k ==> self.archs()[b] == w0.archs()[b]
        &&& forall|b: int|
            0 <= b < self.archs().len() ==> #[trigger] self.rows()[b] == if self.archs()[b].types() == k {
                w0.rows_or_empty(b).push(row)
            } else {
                w0.rows()[b]
            }
    }
}

impl<V> World<V> {
    /// Whether the id `id` was handed out.
    pub fn knows(&self, id: EntityId) -> (r: bool)
        ensures
            r == self.entities().contains(id),
    {
        let mut e: usize = 0;
        while e < self.entities.len()
            invariant
                0 <= e <= self.entities@.len(),
                forall|m: int| 0 <= m < e ==> self.entities@[m] != id,
            decreases self.entities.len() - e,
        {
            if self.entities[e] == id {
                return true;
            }
            e = e + 1;
        }
        false
    }
}

/// The layouts of a well-formed world, seen from an insertion that has not
/// pushed anything yet.
proof fn lemma_layouts_start<V>(w: &World<V>, a: int, extra: Row<V>)
    requires
        w.layouts(w.rows(), -1, arbitrary(), Set::empty()),
    ensures
        w.layouts(w.rows(), a, extra, Set::empty()),
{
    assert forall|a1: int, i: int|
        0 <= a1 < w.archs().len() && 0 <= i < w.archs()[a1].key().len() implies {
            let t1 = #[trigger] w.archs()[a1].key()[i];
            let rs = w.rows_for(w.rows(), a1, t1, a, extra, Set::empty());
            let ids = w.archs()[a1].lists()[i];
            &&& (t1 == ENTITY_ID_UUID ==> layout(w.id_store().chunks(), ids, id_column(rs)))
            &&& (t1 != ENTITY_ID_UUID ==> w.has_store(t1) && layout(w.chunks_of(t1), ids, column(rs, t1)))
        } by {
        let t1 = w.archs()[a1].key()[i];
        assert(w.rows_for(w.rows(), a1, t1, a, extra, Set::empty()) == w.rows_for(
            w.rows(),
            a1,
            t1,
            -1,
            arbitrary(),
            Set::empty(),
        ));
    }
}

/// Two archetypes of a well-formed world with the same composition set are
/// the same archetype.
proof fn lemma_types_unique<V>(w: &World<V>, a1: int, a2: int)
    requires
        w.shape(),
        0 <= a1 < w.archs().len(),
        0 <= a2 < w.archs().len(),
        w.archs()[a1].types() == w.archs()[a2].types(),
    ensures
        a1 == a2,
{
    w.archs()[a1].lemma_wf();
    w.archs()[a2].lemma_wf();
    lemma_sorted_set_eq(w.archs()[a1].key(), w.archs()[a2].key());
}

impl<V> World<V> {
    /// Inserts an entity with the id `id` and the components of `components`.
    ///
    /// Of each component type only the first value is kept, and a component
    /// that claims the id's own type is dropped; the id is added as a
    /// component. The entity joins the archetype of its composition, which is
    /// created if the world has none, and each value is pushed into its
    /// type's store. An id that was handed out before is refused.
    pub fn add_entity_with_id(&mut self, id: EntityId, components: Vec<AnyComponent<V>>) -> (r: Result<
        EntityId,
        AddEntityError,
    >)
        requires
            old(self).wf(),
        ensures
            final(self).wf(),
            old(self).entities().contains(id) ==> r == Err::<EntityId, AddEntityError>(
                AddEntityError::DuplicateEntityId,
            ) && *final(self) == *old(self),
            !old(self).entities().contains(id) ==> r == Ok::<EntityId, AddEntityError>(id) && final(self).inserted(*old(self), id, components@),
    {
        if self.knows(id) {
            return Err(AddEntityError::DuplicateEntityId);
        }
        let ghost w0 = *self;
        let ghost bag_in = components@;
        let bag = normalize(components);
        proof {
            lemma_dedup(bag_in);
        }
        let key = composition_key(&bag);
        let mut k: usize = 0;
        while k < bag.len()
            invariant
                0 <= k <= bag@.len(),
                self.wf(),
                bag@ == dedup(bag_in),
                !uuids(bag@).contains(ENTITY_ID_UUID),
                forall|m: int| 0 <= m < k ==> self.has_store(#[trigger] bag@[m].uuid),
                self.stores().len() >= w0.stores().len(),
                forall|s1: int| 0 <= s1 < w0.stores().len() ==> #[trigger] self.stores()[s1] == w0.stores()[s1],
                forall|u: u128| #[trigger] self.has_store(u) ==> w0.has_store(u) || uuids(bag@).subrange(0, k as int).contains(u),
                self.archs() == w0.archs(),
                self.rows() == w0.rows(),
                self.entities() == w0.entities(),
                self.id_store() == w0.id_store(),
            decreases bag.len() - k,
        {
            proof {
                assert(uuids(bag@)[k as int] == bag@[k as int].uuid);
            }
            let ghost wk = *self;
            self.add_component(bag[k].uuid);
            proof {
                assert forall|u: u128| #[trigger] self.has_store(u) implies w0.has_store(u) || uuids(bag@).subrange(
                    0,
                    k as int + 1,
                ).contains(u) by {
                    assert(wk.has_store(u) || u == bag@[k as int].uuid);
                    if u == bag@[k as int].uuid {
                        assert(uuids(bag@).subrange(0, k as int + 1)[k as int] == u);
                    } else if !w0.has_store(u) {
                        assert(uuids(bag@).subrange(0, k as int).contains(u));
                        let q = choose|q: int| 0 <= q < k && uuids(bag@).subrange(0, k as int)[q] == u;
                        assert(uuids(bag@).subrange(0, k as int + 1)[q] == u);
                    }
                }
            }
            k = k + 1;
        }
        let ghost kset = composition_of(bag_in);
        proof {
            assert(key@.to_set() == kset);
            assert(key@.contains(ENTITY_ID_UUID)) by {
                assert(key@.to_set().contains(ENTITY_ID_UUID));
            }
            assert forall|i: int| 0 <= i < key@.len() && key@[i] != ENTITY_ID_UUID implies self.has_store(#[trigger] key@[i]) by {
                assert(key@.to_set().contains(key@[i]));
                assert(uuids(bag@).to_set().contains(key@[i]));
                let m = choose|m: int| 0 <= m < uuids(bag@).len() && uuids(bag@)[m] == key@[i];
                assert(bag@[m].uuid == key@[i]);
            }
        }
        let ghost w1 = *self;
        let a = self.resolve_archetype(key);
        let ghost extra = Row { id, values: bag_map(bag@) };
        let ghost w_r = *self;
        proof {
            lemma_layouts_start(self, a as int, extra);
        }
        let ghost bag0 = bag@;
        let ghost n = bag0.len();
        let mut bag = bag;
        let ghost mut done: Set<u128> = Set::empty();
        proof {
            assert(uuids(bag0).subrange(n as int, n as int).to_set() =~= done);
            assert forall|s1: int| 0 <= s1 < w_r.stores().len() implies grows(w_r.stores()[s1], #[trigger] self.stores()[s1]) by {
                lemma_grows_refl(w_r.stores()[s1]);
            }
        }
        while bag.len() > 0
            invariant
                self.shape(),
                self.owned(),
                self.disjoint(),
                self.layouts(self.rows(), a as int, extra, done),
                a < self.archs().len(),
                self.archs()[a as int].types() == kset,
                kset == composition_of(bag_in),
                bag0 == dedup(bag_in),
                extra == (Row { id, values: bag_map(bag0) }),
                bag@ == bag0.subrange(0, bag@.len() as int),
                bag@.len() <= n,
                n == bag0.len(),
                done == uuids(bag0).subrange(bag@.len() as int, n as int).to_set(),
                self.rows() == w_r.rows(),
                self.stores().len() == w_r.stores().len(),
                forall|s1: int| 0 <= s1 < w_r.stores().len() ==> grows(w_r.stores()[s1], #[trigger] self.stores()[s1]),
                forall|s1: int| 0 <= s1 < w_r.stores().len() && !uuids(bag0).contains(w_r.stores()[s1].uuid())
                    ==> #[trigger] self.stores()[s1] == w_r.stores()[s1],
                forall|b: int| 0 <= b < w_r.archs().len() && b != a ==> #[trigger] self.archs()[b] == w_r.archs()[b],
                self.id_store() == w_r.id_store(),
                self.archs().len() == w_r.archs().len(),
                forall|b: int| 0 <= b < w_r.archs().len() ==> (#[trigger] self.archs()[b]).key() == w_r.archs()[b].key(),
                self.entities() == w0.entities(),
            decreases bag.len(),
        {
            let c = match bag.pop() {
                Some(c) => c,
                None => {
                    proof {
                        assert(false);
                    }
                    return Err(AddEntityError::DuplicateEntityId);
                },
            };
            let ghost j = bag@.len() as int;
            proof {
                lemma_dedup(bag_in);
                assert(c == bag0[j]);
                assert(kset == uuids(bag0).to_set().insert(ENTITY_ID_UUID));
                assert(uuids(bag0).to_set().contains(uuids(bag0)[j]));
                assert(uuids(bag0)[j] == c.uuid);
                assert(kset.contains(c.uuid)) by {
                    assert(uuids(bag0).contains(c.uuid));
                    assert(uuids(bag0).to_set().contains(c.uuid));
                }
                assert(c.uuid != ENTITY_ID_UUID) by {
                    assert(uuids(bag0).contains(c.uuid));
                }
                assert(!done.contains(c.uuid)) by {
                    let s2 = uuids(bag0).subrange(j + 1, n as int);
                    if s2.to_set().contains(c.uuid) {
                        assert(s2.contains(c.uuid));
                        let q = choose|q: int| 0 <= q < s2.len() && #[trigger] s2[q] == c.uuid;
                        assert(uuids(bag0)[j + 1 + q] == uuids(bag0)[j]);
                    }
                }
                assert(bag_map(bag0)[bag0[j].uuid] == bag0[j].value);
            }
            let ghost wp = *self;
            self.push_user(a, c, Ghost(extra), Ghost(done));
            proof {
                assert forall|s1: int| 0 <= s1 < w_r.stores().len() implies grows(w_r.stores()[s1], #[trigger] self.stores()[s1]) by {
                    lemma_grows_trans(w_r.stores()[s1], wp.stores()[s1], self.stores()[s1]);
                }
                assert forall|s1: int| 0 <= s1 < w_r.stores().len() && !uuids(bag0).contains(w_r.stores()[s1].uuid())
                    implies #[trigger] self.stores()[s1] == w_r.stores()[s1] by {
                    assert(wp.stores()[s1] == w_r.stores()[s1]);
                    assert(uuids(bag0).contains(c.uuid));
                }
                let done2 = done.insert(c.uuid);
                assert(uuids(bag0).subrange(j, n as int).to_set() =~= done2) by {
                    assert forall|x: u128| uuids(bag0).subrange(j, n as int).contains(x) <==> done2.contains(x) by {
                        let s1 = uuids(bag0).subrange(j, n as int);
                        let s2 = uuids(bag0).subrange(j + 1, n as int);
                        if s1.contains(x) {
                            let q = choose|q: int| 0 <= q < s1.len() && s1[q] == x;
                            if q > 0 {
                                assert(s2[q - 1] == x);
                            }
                        }
                        if s2.contains(x) {
                            let q = choose|q: int| 0 <= q < s2.len() && s2[q] == x;
                            assert(s1[q + 1] == x);
                        }
                        if x == c.uuid {
                            assert(s1[0] == x);
                        }
                    }
                }
                done = done2;
                assert(bag@ =~= bag0.subrange(0, bag@.len() as int));
            }
        }
        proof {
            assert(!done.contains(ENTITY_ID_UUID)) by {
                if done.contains(ENTITY_ID_UUID) {
                    assert(uuids(bag0).subrange(0, n as int) =~= uuids(bag0));
                }
            }
        }
        let ghost wq = *self;
        self.push_id(a, id, Ghost(extra), Ghost(done));
        let ghost w2 = *self;
        self.rows = Ghost(self.rows@.update(a as int, self.rows@[a as int].push(extra)));
        self.entities.push(id);
        proof {
            assert(self.archs() == w2.archs());
            assert(self.stores() == w2.stores());
            assert(self.id_store() == w2.id_store());
            let done_all = done.insert(ENTITY_ID_UUID);
            assert(uuids(bag0).subrange(0, n as int) =~= uuids(bag0));
            assert(done_all == kset);
            // layouts of the finished insertion
            assert forall|a1: int, i: int|
                0 <= a1 < self.archs().len() && 0 <= i < self.archs()[a1].key().len() implies {
                    let t1 = #[trigger] self.archs()[a1].key()[i];
                    let rs = self.rows_for(self.rows(), a1, t1, -1, arbitrary(), Set::empty());
                    let ids = self.archs()[a1].lists()[i];
                    &&& (t1 == ENTITY_ID_UUID ==> layout(self.id_store().chunks(), ids, id_column(rs)))
                    &&& (t1 != ENTITY_ID_UUID ==> self.has_store(t1) && layout(self.chunks_of(t1), ids, column(rs, t1)))
                } by {
                let t1 = w2.archs()[a1].key()[i];
                self.archs()[a1].lemma_wf();
                if a1 == a {
                    assert(w2.archs()[a1].key().to_set().contains(t1));
                    assert(done_all.contains(t1));
                    assert(w2.rows_for(w2.rows(), a1, t1, a as int, extra, done_all) == self.rows()[a1]);
                } else {
                    assert(w2.rows_for(w2.rows(), a1, t1, a as int, extra, done_all) == self.rows()[a1]);
                }
            }
            // the domains of the rows
            assert(extra.values.dom() == kset.remove(ENTITY_ID_UUID)) by {
                assert(extra.values.dom() == uuids(bag0).to_set());
                assert(!uuids(bag0).to_set().contains(ENTITY_ID_UUID));
                assert(uuids(bag0).to_set() =~= uuids(bag0).to_set().insert(ENTITY_ID_UUID).remove(ENTITY_ID_UUID));
            }
            assert forall|a1: int, r1: int|
                0 <= a1 < self.archs().len() && 0 <= r1 < self.rows()[a1].len() implies (
                #[trigger] self.rows()[a1][r1]).values.dom() == self.archs()[a1].types().remove(ENTITY_ID_UUID) by {
                if a1 == a && r1 == w2.rows()[a1].len() {
                } else {
                    assert(self.rows()[a1][r1] == w2.rows()[a1][r1]);
                }
            }
            assert(self.entities().no_duplicates()) by {
                assert(!w0.entities().contains(id));
            }
            assert(self.entities() == w2.entities().push(id));
            assert forall|a1: int, r1: int|
                0 <= a1 < self.archs().len() && 0 <= r1 < self.rows()[a1].len() implies self.entities().contains(
                    (#[trigger] self.rows()[a1][r1]).id,
                ) by {
                if a1 == a && r1 == w2.rows()[a1].len() {
                    assert(self.entities()[w2.entities().len() as int] == id);
                } else {
                    assert(self.rows()[a1][r1] == w2.rows()[a1][r1]);
                    let q = choose|q: int| 0 <= q < w2.entities().len() && w2.entities()[q] == w2.rows()[a1][r1].id;
                    assert(self.entities()[q] == w2.entities()[q]);
                }
            }
            assert forall|a1: int, r1: int, a2: int, r2: int|
                0 <= a1 < self.archs().len() && 0 <= r1 < self.rows()[a1].len() && 0 <= a2 < self.archs().len()
                    && 0 <= r2 < self.rows()[a2].len() && (a1 != a2 || r1 != r2) implies (#[trigger] self.rows()[a1][r1]).id
                    != (#[trigger] self.rows()[a2][r2]).id by {
                let new1 = a1 == a && r1 == w2.rows()[a1].len();
                let new2 = a2 == a && r2 == w2.rows()[a2].len();
                if !new1 {
                    assert(self.rows()[a1][r1] == w2.rows()[a1][r1]);
                    assert(w2.entities().contains(w2.rows()[a1][r1].id));
                }
                if !new2 {
                    assert(self.rows()[a2][r2] == w2.rows()[a2][r2]);
                    assert(w2.entities().contains(w2.rows()[a2][r2].id));
                }
                if !new1 && !new2 {
                    assert(w2.rows()[a1][r1].id != w2.rows()[a2][r2].id);
                }
            }
            assert(self.shape());
            // the record of the insertion
            assert(w0.holds(kset) ==> a < w0.archs().len()) by {
                if w0.holds(kset) {
                    let b = choose|b: int| 0 <= b < w0.archs().len() && (#[trigger] w0.archs()[b]).types() == kset;
                    assert(w1.archs()[b] == w0.archs()[b]);
                    assert(self.archs()[b].key() == w0.archs()[b].key());
                    lemma_types_unique(self, b, a as int);
                }
            }
            assert(!w0.holds(kset) ==> a >= w0.archs().len()) by {
                if a < w0.archs().len() {
                    assert(self.archs()[a as int].key() == w0.archs()[a as int].key());
                    assert(w0.archs()[a as int].types() == kset);
                }
            }
            assert(self.archs()[a as int].key() == w_r.archs()[a as int].key());
            assert(self.archs()[a as int].types() == kset);
            assert(self.holds(kset));
            assert forall|b: int| 0 <= b < self.archs().len() implies #[trigger] self.rows()[b] == if self.archs()[b].types() == kset {
                w0.rows_or_empty(b).push(extra)
            } else {
                w0.rows()[b]
            } by {
                if self.archs()[b].types() == kset {
                    lemma_types_unique(self, b, a as int);
                }
            }
            assert(self.entities() == w0.entities().push(id));
            lemma_extend_same(w2, *self);
            assert forall|s1: int| 0 <= s1 < w2.stores().len() implies (#[trigger] self.stores()[s1]).uuid() == w2.stores()[s1].uuid()
                && self.stores()[s1].chunks().len() == w2.stores()[s1].chunks().len() by {
            }
            lemma_owned_carry(w2, *self);
            // the stores and the other archetypes
            assert(w_r.stores() == w1.stores());
            assert(self.stores() == wq.stores());
            assert(self.id_store() == w2.id_store());
            assert(wq.id_store() == w0.id_store());
            assert forall|s1: int| 0 <= s1 < w0.stores().len() implies grows(w0.stores()[s1], #[trigger] self.stores()[s1]) by {
                assert(w1.stores()[s1] == w0.stores()[s1]);
            }
            assert forall|t: u128| #[trigger] self.has_store(t) <==> w0.has_store(t) || uuids(bag0).contains(t) by {
                if self.has_store(t) {
                    let s1 = choose|s1: int| 0 <= s1 < self.stores().len() && (#[trigger] self.stores()[s1]).uuid() == t;
                    assert(w1.stores()[s1].uuid() == t);
                    assert(w1.has_store(t));
                    if uuids(bag0).subrange(0, n as int).contains(t) {
                        assert(uuids(bag0).subrange(0, n as int) =~= uuids(bag0));
                    }
                }
                if uuids(bag0).contains(t) {
                    let m = choose|m: int| 0 <= m < uuids(bag0).len() && uuids(bag0)[m] == t;
                    assert(bag0[m].uuid == t);
                    assert(w1.has_store(t));
                    let s1 = choose|s1: int| 0 <= s1 < w1.stores().len() && (#[trigger] w1.stores()[s1]).uuid() == t;
                    assert(self.stores()[s1].uuid() == t);
                }
                if w0.has_store(t) {
                    let s1 = choose|s1: int| 0 <= s1 < w0.stores().len() && (#[trigger] w0.stores()[s1]).uuid() == t;
                    assert(w1.stores()[s1] == w0.stores()[s1]);
                    assert(self.stores()[s1].uuid() == t);
                }
            }
            assert forall|b: int| 0 <= b < w0.archs().len() && (#[trigger] w0.archs()[b]).types() != kset implies self.archs()[b] == w0.archs()[b] by {
                assert(w_r.archs()[b] == w0.archs()[b]) by {
                    assert(w_r.archs().subrange(0, w1.archs().len() as int)[b] == w1.archs()[b]);
                }
                assert(b != a);
            }
        }
        Ok(id)
    }
}


/// The position, in an archetype's list of chunks, of the chunk of row `r`.
pub open spec fn chunk_pos(r: int) -> int {
    r / (CHUNK_CAPACITY as int)
}

/// The slot of row `r` in its chunk.
pub open spec fn slot_pos(r: int) -> int {
    r % (CHUNK_CAPACITY as int)
}

/// Row `r` of a layout is slot `r % CHUNK_CAPACITY` of its chunk number
/// `r / CHUNK_CAPACITY`.
pub proof fn lemma_layout_index<T>(chunks: Seq<ComponentsChunk<T>>, ids: Seq<usize>, vals: Seq<T>, r: int)
    requires
        layout(chunks, ids, vals),
        0 <= r < vals.len(),
    ensures
        0 <= chunk_pos(r) < ids.len(),
        ids[chunk_pos(r)] < chunks.len(),
        0 <= slot_pos(r) < chunks[ids[chunk_pos(r)] as int].items().len(),
        chunks[ids[chunk_pos(r)] as int].items()[slot_pos(r)] == vals[r],
{
    let c = CHUNK_CAPACITY as int;
    let p = r / c;
    let j = r % c;
    assert(p * c + j == r && 0 <= j < c && 0 <= p) by (nonlinear_arith)
        requires
            c == 32,
            p == r / c,
            j == r % c,
            0 <= r,
    ;
    assert(p < ids.len()) by (nonlinear_arith)
        requires
            p * c + j == r,
            0 <= j,
            r < vals.len(),
            vals.len() <= ids.len() * c,
            c == 32,
    ;
    assert(ids[p] < chunks.len());
    assert(chunks[ids[p] as int].items() == vals.subrange(p * c, chunk_end(p, vals.len() as int)));
}

impl<V> World<V> {
    /// The number of archetypes.
    pub fn archetype_count(&self) -> (r: usize)
        ensures
            r == self.archs().len(),
    {
        self.archetypes.len()
    }

    /// The archetype at index `a`.
    pub fn archetype(&self, a: usize) -> (r: &Archetype)
        requires
            a < self.archs().len(),
        ensures
            *r == self.archs()[a as int],
    {
        &self.archetypes[a]
    }

    /// The number of rows of archetype `a`.
    pub fn row_count(&self, a: usize) -> (r: usize)
        requires
            self.wf(),
            a < self.archs().len(),
        ensures
            r == self.rows()[a as int].len(),
    {
        let i = match archetype::find(&self.archetypes[a], ENTITY_ID_UUID) {
            Some(i) => i,
            None => {
                proof {
                    assert(false);
                }
                return 0;
            },
        };
        let ids = archetype::chunk_ids_at(&self.archetypes[a], i);
        let ghost vals = id_column(self.rows()[a as int]);
        proof {
            assert(self.archs()[a as int].key()[i as int] == ENTITY_ID_UUID);
            assert(layout(self.id_store().chunks(), ids@, vals));
        }
        let m = ids.len();
        if m == 0 {
            return 0;
        }
        let last = ids[m - 1];
        let len = match component::chunk(&self.entity_store, last) {
            Some(ch) => crate::chunk::components(ch).len(),
            None => {
                proof {
                    assert(false);
                }
                return 0;
            },
        };
        proof {
            let n = vals.len() as int;
            assert(self.id_store().chunks()[ids@[m - 1] as int].items() == vals.subrange(
                (m - 1) * CHUNK_CAPACITY,
                chunk_end(m - 1, n),
            ));
            assert(chunk_end(m - 1, n) == n);
            assert(len == n - (m - 1) * CHUNK_CAPACITY);
            assert((m - 1) * CHUNK_CAPACITY + len <= usize::MAX) by {
                assert(self.entities.len() == self.entities@.len());
                assert(n <= self.entities().len());
            }
        }
        (m - 1) * CHUNK_CAPACITY + len
    }
}


/// A value replaced in place keeps the layout, with the value replaced.
proof fn lemma_layout_set<T>(
    chunks: Seq<ComponentsChunk<T>>,
    chunks2: Seq<ComponentsChunk<T>>,
    ids: Seq<usize>,
    vals: Seq<T>,
    r: int,
    x: T,
)
    requires
        layout(chunks, ids, vals),
        0 <= r < vals.len(),
        forall|p: int| 0 <= p < ids.len() && p != chunk_pos(r) ==> #[trigger] ids[p] != ids[chunk_pos(r)],
        chunks2.len() == chunks.len(),
        forall|c: int| 0 <= c < chunks.len() && c != ids[chunk_pos(r)] ==> #[trigger] chunks2[c] == chunks[c],
        chunks2[ids[chunk_pos(r)] as int].items() == chunks[ids[chunk_pos(r)] as int].items().update(slot_pos(r), x),
    ensures
        layout(chunks2, ids, vals.update(r, x)),
{
    lemma_layout_index(chunks, ids, vals, r);
    let c = CHUNK_CAPACITY as int;
    let p0 = chunk_pos(r);
    let vals2 = vals.update(r, x);
    assert(p0 * c + slot_pos(r) == r) by (nonlinear_arith)
        requires
            c == 32,
            p0 == r / c,
            slot_pos(r) == r % c,
    ;
    assert forall|p: int| 0 <= p < ids.len() implies chunks2[#[trigger] ids[p] as int].items()
        == vals2.subrange(p * c, chunk_end(p, vals2.len() as int)) by {
        if p == p0 {
            assert(vals2.subrange(p * c, chunk_end(p, vals.len() as int)) =~= vals.subrange(
                p * c,
                chunk_end(p, vals.len() as int),
            ).update(slot_pos(r), x));
        } else {
            assert(chunks2[ids[p] as int] == chunks[ids[p] as int]);
            assert(p * c <= chunk_end(p, vals.len() as int));
            assert(r < p * c || r >= chunk_end(p, vals.len() as int)) by (nonlinear_arith)
                requires
                    p != p0,
                    p0 * c + slot_pos(r) == r,
                    0 <= slot_pos(r) < c,
                    chunk_end(p, vals.len() as int) <= p * c + c,
                    c == 32,
            ;
            assert(vals2.subrange(p * c, chunk_end(p, vals.len() as int)) =~= vals.subrange(
                p * c,
                chunk_end(p, vals.len() as int),
            ));
        }
    }
}

impl<V> World<V> {
    /// The value of type `t` of row `row` of archetype `a`, if the
    /// archetype holds that type (other than the id) and that row.
    pub fn get_component(&self, a: usize, t: u128, row: usize) -> (r: Option<&V>)
        requires
            self.wf(),
            a < self.archs().len(),
        ensures
            match r {
                Some(v) => self.archs()[a as int].types().contains(t) && t != ENTITY_ID_UUID && row
                    < self.rows()[a as int].len() && *v == self.rows()[a as int][row as int].values[t],
                None => !(self.archs()[a as int].types().contains(t) && t != ENTITY_ID_UUID && row
                    < self.rows()[a as int].len()),
            },
    {
        if t == ENTITY_ID_UUID || row >= self.row_count(a) {
            return None;
        }
        let i = match archetype::find(&self.archetypes[a], t) {
            Some(i) => i,
            None => {
                return None;
            },
        };
        let s = match self.find_store(t) {
            Some(s) => s,
            None => {
                proof {
                    assert(self.archs()[a as int].key()[i as int] == t);
                }
                return None;
            },
        };
        let ids = archetype::chunk_ids_at(&self.archetypes[a], i);
        proof {
            assert(self.archs()[a as int].key()[i as int] == t);
            lemma_layout_index(self.chunks_of(t), ids@, column(self.rows()[a as int], t), row as int);
        }
        let ch = match component::chunk(&self.stores[s], ids[row / CHUNK_CAPACITY]) {
            Some(ch) => ch,
            None => {
                proof {
                    assert(false);
                }
                return None;
            },
        };
        let items = crate::chunk::components(ch);
        proof {
            assert(self.archs()[a as int].types().contains(t)) by {
                assert(self.archs()[a as int].key().contains(t));
            }
        }
        Some(&items[row % CHUNK_CAPACITY])
    }

    /// The id of row `row` of archetype `a`, if the archetype has that row.
    pub fn entity_at(&self, a: usize, row: usize) -> (r: Option<EntityId>)
        requires
            self.wf(),
            a < self.archs().len(),
        ensures
            match r {
                Some(id) => row < self.rows()[a as int].len() && id == self.rows()[a as int][row as int].id,
                None => row >= self.rows()[a as int].len(),
            },
    {
        if row >= self.row_count(a) {
            return None;
        }
        let i = match archetype::find(&self.archetypes[a], ENTITY_ID_UUID) {
            Some(i) => i,
            None => {
                proof {
                    assert(false);
                }
                return None;
            },
        };
        let ids = archetype::chunk_ids_at(&self.archetypes[a], i);
        proof {
            assert(self.archs()[a as int].key()[i as int] == ENTITY_ID_UUID);
            lemma_layout_index(self.id_store().chunks(), ids@, id_column(self.rows()[a as int]), row as int);
        }
        let ch = match component::chunk(&self.entity_store, ids[row / CHUNK_CAPACITY]) {
            Some(ch) => ch,
            None => {
                proof {
                    assert(false);
                }
                return None;
            },
        };
        let items = crate::chunk::components(ch);
        Some(items[row % CHUNK_CAPACITY])
    }
}


impl<V> World<V> {
    /// Replaces the value of type `t` of row `row` of archetype `a`. Returns
    /// whether the archetype holds that type (other than the id) and that
    /// row; the world is unchanged when it does not.
    pub fn set_component(&mut self, a: usize, t: u128, row: usize, value: V) -> (r: bool)
        requires
            old(self).wf(),
            a < old(self).archs().len(),
        ensures
            final(self).wf(),
            r == (old(self).archs()[a as int].types().contains(t) && t != ENTITY_ID_UUID && row < old(
                self
            ).rows()[a as int].len()),
            !r ==> *final(self) == *old(self),
            r ==> final(self).rows() == old(self).rows().update(
                a as int,
                old(self).rows()[a as int].update(
                    row as int,
                    Row {
                        id: old(self).rows()[a as int][row as int].id,
                        values: old(self).rows()[a as int][row as int].values.insert(t, value),
                    },
                ),
            ),
            final(self).archs() == old(self).archs(),
            final(self).entities() == old(self).entities(),
            final(self).stores().len() == old(self).stores().len(),
    {
        if t == ENTITY_ID_UUID || row >= self.row_count(a) {
            return false;
        }
        let i = match archetype::find(&self.archetypes[a], t) {
            Some(i) => i,
            None => {
                return false;
            },
        };
        let ghost w0 = *self;
        let ghost a_ = a as int;
        let ghost i_ = i as int;
        let ghost ids = w0.archs()[a_].lists()[i_];
        let ghost vals = column(w0.rows()[a_], t);
        proof {
            assert(w0.archs()[a_].key()[i_] == t);
            assert(w0.archs()[a_].types().contains(t)) by {
                assert(w0.archs()[a_].key().contains(t));
            }
        }
        let s = match self.find_store(t) {
            Some(s) => s,
            None => {
                proof {
                    assert(false);
                }
                return false;
            },
        };
        proof {
            lemma_layout_index(w0.chunks_of(t), ids, vals, row as int);
        }
        let p = row / CHUNK_CAPACITY;
        let chunk_id = archetype::chunk_ids_at(&self.archetypes[a], i)[p];
        let ghost chunks = w0.chunks_of(t);
        let ghost x = value;
        component::set_component(&mut self.stores[s], chunk_id, row % CHUNK_CAPACITY, value);
        let ghost old_row = w0.rows()[a_][row as int];
        let ghost new_row = Row { id: old_row.id, values: old_row.values.insert(t, x) };
        self.rows = Ghost(self.rows@.update(a_, self.rows@[a_].update(row as int, new_row)));
        proof {
            let chunks2 = self.chunks_of(t);
            assert(self.stores() == w0.stores().update(s as int, self.stores()[s as int]));
            lemma_store_at(self, s as int, t);
            assert forall|q: int| 0 <= q < ids.len() && q != chunk_pos(row as int) implies #[trigger] ids[q] != ids[chunk_pos(row as int)] by {
                if ids[q] == ids[chunk_pos(row as int)] {
                    assert(w0.archs()[a_].lists()[i_][q] == w0.archs()[a_].lists()[i_][chunk_pos(row as int)]);
                }
            }
            lemma_layout_set(chunks, chunks2, ids, vals, row as int, x);
            assert(column(self.rows()[a_], t) =~= vals.update(row as int, x));
            assert forall|s1: int| 0 <= s1 < self.stores().len() implies (#[trigger] self.stores()[s1]).wf()
                && self.stores()[s1].uuid() == w0.stores()[s1].uuid()
                && (s1 != s ==> self.stores()[s1] == w0.stores()[s1]) by {
            }
            assert forall|u: u128| #[trigger] w0.has_store(u) implies self.has_store(u) && self.store_at(u) == w0.store_at(u) by {
                let s0 = w0.store_at(u);
                lemma_store_at(self, s0, u);
            }
            assert forall|a1: int, i1: int|
                0 <= a1 < self.archs().len() && 0 <= i1 < self.archs()[a1].key().len() implies {
                    let t1 = #[trigger] self.archs()[a1].key()[i1];
                    let rs = self.rows_for(self.rows(), a1, t1, -1, arbitrary(), Set::empty());
                    let ids1 = self.archs()[a1].lists()[i1];
                    &&& (t1 == ENTITY_ID_UUID ==> layout(self.id_store().chunks(), ids1, id_column(rs)))
                    &&& (t1 != ENTITY_ID_UUID ==> self.has_store(t1) && layout(self.chunks_of(t1), ids1, column(rs, t1)))
                } by {
                let t1 = w0.archs()[a1].key()[i1];
                let ids1 = w0.archs()[a1].lists()[i1];
                if a1 == a_ && i1 == i_ {
                } else if t1 == t {
                    assert(a1 != a_) by {
                        w0.archs()[a_].lemma_wf();
                        if a1 == a_ {
                            if i1 < i_ {
                                assert(w0.archs()[a_].key()[i1] < w0.archs()[a_].key()[i_]);
                            } else {
                                assert(w0.archs()[a_].key()[i_] < w0.archs()[a_].key()[i1]);
                            }
                        }
                    }
                    assert(self.rows()[a1] == w0.rows()[a1]);
                    assert forall|q: int| 0 <= q < ids1.len() implies chunks2[#[trigger] ids1[q] as int] == chunks[ids1[q] as int] by {
                        if ids1[q] == ids[chunk_pos(row as int)] {
                            assert(w0.archs()[a1].lists()[i1][q] == w0.archs()[a_].lists()[i_][chunk_pos(row as int)]);
                        }
                    }
                    lemma_layout_frame(chunks, chunks2, ids1, column(w0.rows()[a1], t));
                } else {
                    if a1 == a_ {
                        assert(id_column(self.rows()[a1]) =~= id_column(w0.rows()[a1]));
                        assert(column(self.rows()[a1], t1) =~= column(w0.rows()[a1], t1));
                    } else {
                        assert(self.rows()[a1] == w0.rows()[a1]);
                    }
                    if t1 != ENTITY_ID_UUID {
                        assert(w0.has_store(t1));
                        assert(w0.store_at(t1) != s);
                        assert(self.chunks_of(t1) == w0.chunks_of(t1));
                    }
                }
            }
            assert forall|a1: int, r1: int|
                0 <= a1 < self.archs().len() && 0 <= r1 < self.rows()[a1].len() implies (
                #[trigger] self.rows()[a1][r1]).values.dom() == self.archs()[a1].types().remove(ENTITY_ID_UUID) by {
                assert(w0.rows()[a1][r1].values.dom() == w0.archs()[a1].types().remove(ENTITY_ID_UUID));
                if a1 == a_ && r1 == row {
                    assert(old_row.values.dom().contains(t));
                    assert(new_row.values.dom() =~= old_row.values.dom());
                }
            }
            assert forall|a1: int| 0 <= a1 < self.archs().len() implies (#[trigger] self.rows()[a1]).len() <= self.entities().len() by {
                assert(w0.rows()[a1].len() <= w0.entities().len());
            }
            assert(self.shape());
            lemma_extend_same(w0, *self);
            assert forall|s1: int| 0 <= s1 < w0.stores().len() implies (#[trigger] self.stores()[s1]).uuid() == w0.stores()[s1].uuid()
                && self.stores()[s1].chunks().len() == w0.stores()[s1].chunks().len() by {
            }
            lemma_owned_carry(w0, *self);
        }
        true
    }
}


/// The archetype holds every type of `types`.
pub open spec fn has_types(arch: Archetype, types: Seq<u128>) -> bool {
    forall|k: int| 0 <= k < types.len() ==> arch.types().contains(#[trigger] types[k])
}

impl<V> World<V> {
    /// The indices of the archetypes for which `filter` holds, in increasing
    /// order. Every archetype is looked at once.
    pub fn query<F: Fn(&Archetype) -> bool>(&self, filter: F) -> (r: Vec<usize>)
        requires
            self.wf(),
            forall|x: &Archetype| x.wf() ==> #[trigger] filter.requires((x,)),
        ensures
            forall|k: int| 0 <= k < r@.len() ==> #[trigger] r@[k] < self.archs().len() && filter.ensures(
                (&self.archs()[r@[k] as int],),
                true,
            ),
            forall|k1: int, k2: int| 0 <= k1 < k2 < r@.len() ==> r@[k1] < r@[k2],
            forall|a: int|
                0 <= a < self.archs().len() && !r@.contains(a as usize) ==> filter.ensures(
                    (&#[trigger] self.archs()[a],),
                    false,
                ),
    {
        let mut r: Vec<usize> = Vec::new();
        let mut a: usize = 0;
        while a < self.archetypes.len()
            invariant
                0 <= a <= self.archs().len(),
                self.wf(),
                forall|x: &Archetype| x.wf() ==> #[trigger] filter.requires((x,)),
                forall|k: int| 0 <= k < r@.len() ==> #[trigger] r@[k] < a && filter.ensures(
                    (&self.archs()[r@[k] as int],),
                    true,
                ),
                forall|k1: int, k2: int| 0 <= k1 < k2 < r@.len() ==> r@[k1] < r@[k2],
                forall|b: int|
                    0 <= b < a && !r@.contains(b as usize) ==> filter.ensures((&#[trigger] self.archs()[b],), false),
            decreases self.archetypes.len() - a,
        {
            assert(self.archs()[a as int].wf());
            let keep = filter(&self.archetypes[a]);
            let ghost r0 = r@;
            if keep {
                r.push(a);
            }
            proof {
                assert forall|b: int| 0 <= b < a + 1 && !r@.contains(b as usize) implies filter.ensures(
                    (&#[trigger] self.archs()[b],),
                    false,
                ) by {
                    if b < a {
                        if r0.contains(b as usize) {
                            let k = choose|k: int| 0 <= k < r0.len() && r0[k] == b as usize;
                            assert(r@[k] == b as usize);
                        }
                    } else {
                        if keep {
                            assert(r@[r0.len() as int] == a);
                        }
                    }
                }
            }
            a = a + 1;
        }
        r
    }

    /// The indices of the archetypes that hold every type of `types`, in
    /// increasing order.
    pub fn query_with(&self, types: &[u128]) -> (r: Vec<usize>)
        requires
            self.wf(),
        ensures
            forall|k: int| 0 <= k < r@.len() ==> #[trigger] r@[k] < self.archs().len(),
            forall|k1: int, k2: int| 0 <= k1 < k2 < r@.len() ==> r@[k1] < r@[k2],
            forall|a: int|
                0 <= a < self.archs().len() ==> (r@.contains(a as usize) <==> has_types(
                    #[trigger] self.archs()[a],
                    types@,
                )),
    {
        let mut r: Vec<usize> = Vec::new();
        let mut a: usize = 0;
        while a < self.archetypes.len()
            invariant
                0 <= a <= self.archs().len(),
                self.wf(),
                forall|k: int| 0 <= k < r@.len() ==> #[trigger] r@[k] < a,
                forall|k1: int, k2: int| 0 <= k1 < k2 < r@.len() ==> r@[k1] < r@[k2],
                forall|b: int| 0 <= b < a ==> (r@.contains(b as usize) <==> has_types(#[trigger] self.archs()[b], types@)),
            decreases self.archetypes.len() - a,
        {
            let keep = archetype::has_all(&self.archetypes[a], types);
            let ghost r0 = r@;
            if keep {
                r.push(a);
            }
            proof {
                assert forall|b: int| 0 <= b < a + 1 implies (r@.contains(b as usize) <==> has_types(
                    #[trigger] self.archs()[b],
                    types@,
                )) by {
                    if b < a {
                        if r0.contains(b as usize) {
                            let k = choose|k: int| 0 <= k < r0.len() && r0[k] == b as usize;
                            assert(r@[k] == b as usize);
                        }
                        if r@.contains(b as usize) {
                            let k = choose|k: int| 0 <= k < r@.len() && r@[k] == b as usize;
                            assert(k < r0.len());
                            assert(r0[k] == b as usize);
                        }
                    } else {
                        if keep {
                            assert(r@[r0.len() as int] == a);
                        } else {
                            if r@.contains(b as usize) {
                                let k = choose|k: int| 0 <= k < r@.len() && r@[k] == b as usize;
                                assert(r0[k] < a);
                            }
                        }
                    }
                }
            }
            a = a + 1;
        }
        r
    }

    /// Inserts an entity with a freshly drawn id; see `add_entity_with_id`.
    /// The draw is random, so an id that collides with one handed out before
    /// is refused rather than reused.
    pub fn add_entity(&mut self, components: Vec<AnyComponent<V>>) -> (r: Result<EntityId, AddEntityError>)
        requires
            old(self).wf(),
        ensures
            final(self).wf(),
            match r {
                Ok(id) => !old(self).entities().contains(id) && final(self).inserted(*old(self), id, components@),
                Err(e) => e == AddEntityError::DuplicateEntityId && old(self).entities().len() > 0
                    && *final(self) == *old(self),
            },
    {
        let id = entity::new();
        self.add_entity_with_id(id, components)
    }
}


impl<V> World<V> {
    /// The number of values in chunk `c` of the store of type `t`.
    pub open spec fn chunk_len(&self, t: u128, c: int) -> nat {
        if t == ENTITY_ID_UUID {
            self.id_store().chunks()[c].items().len()
        } else {
            self.chunks_of(t)[c].items().len()
        }
    }

    /// The value that lockstep iteration reads for row `r` of archetype `a`
    /// at position `i` of its composition.
    pub open spec fn stored_value(&self, a: int, i: int, r: int) -> V {
        let t = self.archs()[a].key()[i];
        self.chunks_of(t)[self.archs()[a].lists()[i][chunk_pos(r)] as int].items()[slot_pos(r)]
    }

    /// The id that lockstep iteration reads for row `r` of archetype `a`,
    /// whose id type stands at position `i` of its composition.
    pub open spec fn stored_id(&self, a: int, i: int, r: int) -> EntityId {
        self.id_store().chunks()[self.archs()[a].lists()[i][chunk_pos(r)] as int].items()[slot_pos(r)]
    }
}

/// Every id handed out is different from every other.
pub proof fn lemma_ids_distinct<V>(w: &World<V>)
    requires
        w.wf(),
    ensures
        forall|i: int, j: int| 0 <= i < j < w.entities().len() ==> w.entities()[i] != w.entities()[j],
{
}

/// Along a run of insertions, each world records the ids handed out so far.
proof fn lemma_run_entities<V>(ws: Seq<World<V>>, ids: Seq<EntityId>, bags: Seq<Seq<AnyComponent<V>>>, k: int)
    requires
        ws.len() == ids.len() + 1,
        bags.len() == ids.len(),
        forall|i: int| 0 <= i < ids.len() ==> (#[trigger] ws[i + 1]).inserted(ws[i], ids[i], bags[i]),
        0 <= k <= ids.len(),
    ensures
        ws[k].entities() == ws[0].entities() + ids.subrange(0, k),
    decreases k,
{
    if k == 0 {
        assert(ws[0].entities() + ids.subrange(0, 0) =~= ws[0].entities());
    } else {
        lemma_run_entities(ws, ids, bags, k - 1);
        assert(ws[k].inserted(ws[k - 1], ids[k - 1], bags[k - 1]));
        assert(ws[0].entities() + ids.subrange(0, k) =~= (ws[0].entities() + ids.subrange(0, k - 1)).push(ids[k - 1]));
    }
}

/// The ids returned by any run of insertions are pairwise distinct.
pub proof fn lemma_run_ids_distinct<V>(ws: Seq<World<V>>, ids: Seq<EntityId>, bags: Seq<Seq<AnyComponent<V>>>)
    requires
        ws.len() == ids.len() + 1,
        bags.len() == ids.len(),
        forall|i: int| 0 <= i < ids.len() ==> (#[trigger] ws[i + 1]).inserted(ws[i], ids[i], bags[i]),
        ws.last().wf(),
    ensures
        forall|i: int, j: int| 0 <= i < j < ids.len() ==> ids[i] != ids[j],
{
    lemma_run_entities(ws, ids, bags, ids.len() as int);
    let e = ws.last().entities();
    let n0 = ws[0].entities().len() as int;
    assert(ids.subrange(0, ids.len() as int) =~= ids);
    assert forall|i: int, j: int| 0 <= i < j < ids.len() implies ids[i] != ids[j] by {
        assert(e[n0 + i] == ids[i]);
        assert(e[n0 + j] == ids[j]);
    }
}

/// Slot `j` of chunk `c` of the id store holds the id of a row: row
/// `p * CHUNK_CAPACITY + j` of an archetype `a` that lists `c` at position
/// `p` of its list `i`.
proof fn lemma_stored_id_row<V>(w: &World<V>, c: int, j: int) -> (r: (int, int, int))
    requires
        w.wf(),
        0 <= c < w.id_store().chunks().len(),
        0 <= j < w.id_store().chunks()[c].items().len(),
    ensures
        0 <= r.0 < w.archs().len(),
        0 <= r.1 < w.archs()[r.0].key().len(),
        w.archs()[r.0].key()[r.1] == ENTITY_ID_UUID,
        0 <= r.2 < w.archs()[r.0].lists()[r.1].len(),
        w.archs()[r.0].lists()[r.1][r.2] == c,
        0 <= r.2 * CHUNK_CAPACITY + j < w.rows()[r.0].len(),
        w.id_store().chunks()[c].items()[j] == w.rows()[r.0][r.2 * CHUNK_CAPACITY + j].id,
{
    assert(w.listed(ENTITY_ID_UUID, c));
    let (a, i, p) = choose|a: int, i: int, p: int|
        0 <= a < w.archs().len() && 0 <= i < w.archs()[a].key().len() && 0 <= p < w.archs()[a].lists()[i].len()
            && w.archs()[a].key()[i] == ENTITY_ID_UUID && #[trigger] w.archs()[a].lists()[i][p] == c;
    let vals = id_column(w.rows()[a]);
    let ids = w.archs()[a].lists()[i];
    assert(layout(w.id_store().chunks(), ids, vals));
    assert(w.id_store().chunks()[ids[p] as int].items() == vals.subrange(
        p * CHUNK_CAPACITY,
        chunk_end(p, vals.len() as int),
    ));
    (a, i, p)
}

/// Every id in the store of ids was handed out, and no id sits in two
/// slots: each entity is stored exactly once.
pub proof fn lemma_stored_ids_unique<V>(w: &World<V>, c1: int, j1: int, c2: int, j2: int)
    requires
        w.wf(),
        0 <= c1 < w.id_store().chunks().len(),
        0 <= j1 < w.id_store().chunks()[c1].items().len(),
        0 <= c2 < w.id_store().chunks().len(),
        0 <= j2 < w.id_store().chunks()[c2].items().len(),
    ensures
        w.entities().contains(w.id_store().chunks()[c1].items()[j1]),
        (c1 != c2 || j1 != j2) ==> w.id_store().chunks()[c1].items()[j1] != w.id_store().chunks()[c2].items()[j2],
{
    let (a1, i1, p1) = lemma_stored_id_row(w, c1, j1);
    let (a2, i2, p2) = lemma_stored_id_row(w, c2, j2);
    let r1 = p1 * CHUNK_CAPACITY + j1;
    let r2 = p2 * CHUNK_CAPACITY + j2;
    assert(w.entities().contains(w.rows()[a1][r1].id));
    if c1 != c2 || j1 != j2 {
        if a1 == a2 && r1 == r2 {
            assert(j1 < CHUNK_CAPACITY && j2 < CHUNK_CAPACITY) by {
                assert(w.id_store().chunks()[c1].wf());
                assert(w.id_store().chunks()[c2].wf());
            }
            assert(p1 == p2 && j1 == j2) by (nonlinear_arith)
                requires
                    p1 * 32 + j1 == p2 * 32 + j2,
                    0 <= j1 < 32,
                    0 <= j2 < 32,
            ;
            w.archs()[a1].lemma_wf();
            if i1 != i2 {
                if i1 < i2 {
                    assert(w.archs()[a1].key()[i1] < w.archs()[a1].key()[i2]);
                } else {
                    assert(w.archs()[a1].key()[i2] < w.archs()[a1].key()[i1]);
                }
            }
        }
    }
}

/// After an insertion, the archetype of the entity's composition holds every
/// type the entity was given and no other, and its last row holds the
/// entity's id and values: a query for types the entity has finds it, and a
/// query for a type it lacks does not.
pub proof fn lemma_composition<V>(
    w0: World<V>,
    w1: World<V>,
    id: EntityId,
    bag: Seq<AnyComponent<V>>,
    types: Seq<u128>,
    c: u128,
)
    requires
        w0.wf(),
        w1.wf(),
        w1.inserted(w0, id, bag),
    ensures
        exists|a: int|
            0 <= a < w1.archs().len() && (#[trigger] w1.archs()[a]).types() == composition_of(bag)
                && w1.rows()[a].last() == (Row { id, values: bag_map(dedup(bag)) })
                && (types.to_set().subset_of(composition_of(bag)) ==> has_types(w1.archs()[a], types))
                && (!composition_of(bag).contains(c) ==> !has_types(w1.archs()[a], seq![c])),
{
    let k = composition_of(bag);
    let a = choose|a: int| 0 <= a < w1.archs().len() && (#[trigger] w1.archs()[a]).types() == k;
    assert(w1.rows()[a] == w0.rows_or_empty(a).push(Row { id, values: bag_map(dedup(bag)) }));
    if types.to_set().subset_of(k) {
        assert forall|m: int| 0 <= m < types.len() implies w1.archs()[a].types().contains(#[trigger] types[m]) by {
            assert(types.to_set().contains(types[m]));
        }
    }
    if !k.contains(c) {
        assert(seq![c][0] == c);
    }
}

/// Lockstep iteration pairs values of one row: for row `r` of archetype
/// `a`, the values read at any two positions of the composition, and the id
/// read beside them, are those of that row, which one insertion supplied
/// together.
pub proof fn lemma_positional<V>(w: &World<V>, a: int, i1: int, i2: int, ie: int, r: int)
    requires
        w.wf(),
        0 <= a < w.archs().len(),
        0 <= i1 < w.archs()[a].key().len(),
        0 <= i2 < w.archs()[a].key().len(),
        0 <= ie < w.archs()[a].key().len(),
        w.archs()[a].key()[i1] != ENTITY_ID_UUID,
        w.archs()[a].key()[i2] != ENTITY_ID_UUID,
        w.archs()[a].key()[ie] == ENTITY_ID_UUID,
        0 <= r < w.rows()[a].len(),
    ensures
        w.stored_value(a, i1, r) == w.rows()[a][r].values[w.archs()[a].key()[i1]],
        w.stored_value(a, i2, r) == w.rows()[a][r].values[w.archs()[a].key()[i2]],
        w.stored_id(a, ie, r) == w.rows()[a][r].id,
{
    let t1 = w.archs()[a].key()[i1];
    let t2 = w.archs()[a].key()[i2];
    let te = w.archs()[a].key()[ie];
    lemma_layout_index(w.chunks_of(t1), w.archs()[a].lists()[i1], column(w.rows()[a], t1), r);
    lemma_layout_index(w.chunks_of(t2), w.archs()[a].lists()[i2], column(w.rows()[a], t2), r);
    lemma_layout_index(w.id_store().chunks(), w.archs()[a].lists()[ie], id_column(w.rows()[a]), r);
}

/// An archetype with one row more than a chunk holds uses exactly two
/// chunks of each of its types: the first full, the second with one value.
pub proof fn lemma_sealing<V>(w: &World<V>, a: int, i: int)
    requires
        w.wf(),
        0 <= a < w.archs().len(),
        0 <= i < w.archs()[a].key().len(),
        w.rows()[a].len() == CHUNK_CAPACITY + 1,
    ensures
        w.archs()[a].lists()[i].len() == 2,
        w.chunk_len(w.archs()[a].key()[i], w.archs()[a].lists()[i][0] as int) == CHUNK_CAPACITY,
        w.chunk_len(w.archs()[a].key()[i], w.archs()[a].lists()[i][1] as int) == 1,
{
    let t = w.archs()[a].key()[i];
    let ids = w.archs()[a].lists()[i];
    if t == ENTITY_ID_UUID {
        let vals = id_column(w.rows()[a]);
        assert(layout(w.id_store().chunks(), ids, vals));
        assert(w.id_store().chunks()[ids[0] as int].items() == vals.subrange(0, chunk_end(0, vals.len() as int)));
        assert(w.id_store().chunks()[ids[1] as int].items() == vals.subrange(CHUNK_CAPACITY as int, chunk_end(1, vals.len() as int)));
    } else {
        let vals = column(w.rows()[a], t);
        assert(layout(w.chunks_of(t), ids, vals));
        assert(w.chunks_of(t)[ids[0] as int].items() == vals.subrange(0, chunk_end(0, vals.len() as int)));
        assert(w.chunks_of(t)[ids[1] as int].items() == vals.subrange(CHUNK_CAPACITY as int, chunk_end(1, vals.len() as int)));
    }
}

/// A type that has no store yet is in no archetype: a query for it matches
/// nothing, which is a skip, not an error.
pub proof fn lemma_skip<V>(w: &World<V>, t: u128)
    requires
        w.wf(),
        t != ENTITY_ID_UUID,
        !w.has_store(t),
    ensures
        forall|a: int| 0 <= a < w.archs().len() ==> !(#[trigger] w.archs()[a]).types().contains(t),
        forall|a: int| 0 <= a < w.archs().len() ==> !has_types(#[trigger] w.archs()[a], seq![t]),
{
    assert forall|a: int| 0 <= a < w.archs().len() implies !(#[trigger] w.archs()[a]).types().contains(t) by {
        if w.archs()[a].types().contains(t) {
            let i = choose|i: int| 0 <= i < w.archs()[a].key().len() && w.archs()[a].key()[i] == t;
            assert(w.archs()[a].key()[i] == t);
        }
    }
    assert forall|a: int| 0 <= a < w.archs().len() implies !has_types(#[trigger] w.archs()[a], seq![t]) by {
        assert(seq![t][0] == t);
        assert(!w.archs()[a].types().contains(t));
    }
}


impl<V> World<V> {
    /// The store of component type `t`, if the world has one.
    pub fn extract_components(&self, t: u128) -> (r: Option<&Components<V>>)
        requires
            self.wf(),
        ensures
            match r {
                Some(s) => self.has_store(t) && *s == self.stores()[self.store_at(t)],
                None => !self.has_store(t),
            },
    {
        match self.find_store(t) {
            Some(s) => Some(&self.stores[s]),
            None => None,
        }
    }

    /// The store of entity ids.
    pub fn entity_ids(&self) -> (r: &Components<EntityId>)
        ensures
            *r == self.id_store(),
    {
        &self.entity_store
    }
}

/// An empty world.
pub fn new<V>() -> (r: World<V>)
    ensures
        r.wf(),
        r.archs().len() == 0,
        r.stores().len() == 0,
        r.entities().len() == 0,
{
    World {
        archetypes: Vec::new(),
        stores: Vec::new(),
        entity_store: component::new(ENTITY_ID_UUID),
        entities: Vec::new(),
        rows: Ghost(Seq::empty()),
    }
}

} // verus!
