use vstd::prelude::*;

use crate::components::PrototypeBundle;
use crate::prototype::{InstanceTag, PrototypeId, PrototypeInstance};
use crate::storage::{after_drop, after_insert, drop_outcome, insert_outcome, DropItemCommand, InsertItemCommand, TransferError};

verus! {

/// Where an item is: in the world on its own placement, held by a storage,
/// or in neither state (a corrupt state that the auditor reports).
#[derive(Clone, Copy, PartialEq, Eq, Structural, Debug, Hash)]
pub enum ItemState {
    World,
    Contained(Entity),
    Stray,
}

/// A handle to an entity of a [`World`]: its index, never reused.
#[derive(Clone, Copy, PartialEq, Eq, Structural, Debug, Hash)]
pub struct Entity {
    pub index: usize,
}

/// What the library knows of one entity.
///
/// `placement` is the entity's own spatial placement (position, orientation,
/// scale) in the host engine's representation. Only items are ever given a
/// parent, and an item with a parent has no placement of its own, so every
/// entity that has a placement has no parent and the placement is also where
/// the entity stands in the world.
///
/// This model has no free-floating parents: a parent link always means that
/// a storage holds the item. An item standing in the world under some other
/// parent entity cannot be represented here.
pub struct EntityView<T, P> {
    pub alive: bool,
    pub instance: Option<T>,
    pub bundle: PrototypeBundle,
    pub placement: Option<P>,
    pub parent: Option<Entity>,
    pub contents: Seq<Entity>,
}

/// The abstract state of a world: one view per entity ever spawned.
pub type WorldView<T, P> = Seq<EntityView<T, P>>;

pub open spec fn live<T, P>(w: WorldView<T, P>, e: Entity) -> bool {
    e.index < w.len() && w[e.index as int].alive
}

pub open spec fn is_item<T, P>(w: WorldView<T, P>, e: Entity) -> bool {
    live(w, e) && w[e.index as int].bundle.is_item()
}

pub open spec fn is_storage<T, P>(w: WorldView<T, P>, e: Entity) -> bool {
    live(w, e) && w[e.index as int].bundle.is_storage()
}

/// The item stands in the world on its own placement.
pub open spec fn in_world<T, P>(w: WorldView<T, P>, e: Entity) -> bool {
    is_item(w, e) && w[e.index as int].placement is Some
}

/// The item is held by a storage and has no placement of its own.
pub open spec fn contained<T, P>(w: WorldView<T, P>, e: Entity) -> bool {
    is_item(w, e) && w[e.index as int].placement is None && w[e.index as int].parent is Some
}

/// The item is neither in the world nor contained: a corrupt state.
pub open spec fn stray<T, P>(w: WorldView<T, P>, e: Entity) -> bool {
    is_item(w, e) && w[e.index as int].placement is None && w[e.index as int].parent is None
}

/// A parent link points at a live storage that lists the entity, and only
/// an item without a placement has one.
pub open spec fn parent_wf<T, P>(w: WorldView<T, P>, e: Entity) -> bool {
    let r = w[e.index as int];
    r.parent matches Some(s) ==> {
        &&& r.alive
        &&& r.bundle.is_item()
        &&& r.placement is None
        &&& is_storage(w, s)
        &&& w[s.index as int].contents.contains(e)
    }
}

/// A live storage lists each of its items once, and only items whose parent
/// it is; any other entity lists nothing.
pub open spec fn contents_wf<T, P>(w: WorldView<T, P>, e: Entity) -> bool {
    let r = w[e.index as int];
    &&& (r.alive && r.bundle.is_storage() ==> {
        &&& r.contents.no_duplicates()
        &&& forall|c: Entity| #[trigger]
            r.contents.contains(c) ==> is_item(w, c) && w[c.index as int].parent == Some(e)
    })
    &&& (!(r.alive && r.bundle.is_storage()) ==> r.contents.len() == 0)
}

/// The links of one entity agree with those of the entities they name.
pub open spec fn record_wf<T, P>(w: WorldView<T, P>, e: Entity) -> bool {
    parent_wf(w, e) && contents_wf(w, e)
}

/// Every entity's links are consistent: a storage lists exactly the items
/// whose parent it is, each once.
pub open spec fn world_wf<T, P>(w: WorldView<T, P>) -> bool {
    forall|e: Entity| e.index < w.len() ==> #[trigger] record_wf(w, e)
}

/// Every item is either in the world or contained.
pub open spec fn no_stray_items<T, P>(w: WorldView<T, P>) -> bool {
    forall|e: Entity| #[trigger] is_item(w, e) ==> !stray(w, e)
}

/// The key of registry `K` that the entity's tag holds, if it is alive and
/// tagged by that registry.
pub open spec fn key_of<T: InstanceTag<K>, K, P>(w: WorldView<T, P>, e: Entity) -> Option<K> {
    if live(w, e) {
        match w[e.index as int].instance {
            Some(t) => t.key_spec(),
            None => None,
        }
    } else {
        None
    }
}

/// The entity is a live instance of registry `K`, of key `id` when one is
/// given.
pub open spec fn listed<T: InstanceTag<K>, K, P>(w: WorldView<T, P>, e: Entity, id: Option<K>) -> bool {
    key_of::<T, K, P>(w, e) matches Some(k) && (id matches Some(want) ==> k == want)
}

/// The entities are in strictly increasing order of index.
pub open spec fn ascending(s: Seq<Entity>) -> bool {
    forall|a: int, b: int| 0 <= a < b < s.len() ==> s[a].index < s[b].index
}

/// An entity once despawned: dead, unlinked, holding nothing.
pub open spec fn despawned<T, P>(v: EntityView<T, P>) -> EntityView<T, P> {
    EntityView { alive: false, parent: None, contents: Seq::empty(), ..v }
}

/// The world after despawning `e`: the entity and the items it holds are
/// gone, and the storage that held `e` no longer lists it.
pub open spec fn after_despawn<T, P>(w: WorldView<T, P>, e: Entity) -> WorldView<T, P> {
    let r = w[e.index as int];
    let base = Seq::new(
        w.len(),
        |i: int|
            if i == e.index || r.contents.contains(Entity { index: i as usize }) {
                despawned(w[i])
            } else {
                w[i]
            },
    );
    match r.parent {
        Some(s) => base.update(
            s.index as int,
            EntityView {
                contents: w[s.index as int].contents.remove(w[s.index as int].contents.index_of(e)),
                ..w[s.index as int]
            },
        ),
        None => base,
    }
}

/// Despawns `e` when it is alive; otherwise changes nothing.
pub open spec fn despawn_one<T, P>(w: WorldView<T, P>, e: Entity) -> WorldView<T, P> {
    if live(w, e) {
        after_despawn(w, e)
    } else {
        w
    }
}

/// Despawns the entities one after the other, skipping any that an earlier
/// despawn has already removed.
pub open spec fn despawn_each<T, P>(w: WorldView<T, P>, es: Seq<Entity>) -> WorldView<T, P>
    decreases es.len(),
{
    if es.len() == 0 {
        w
    } else {
        despawn_each(despawn_one(w, es[0]), es.drop_first())
    }
}

/// Despawning one more entity at the end of a sequence.
pub proof fn lemma_despawn_each_push<T, P>(w: WorldView<T, P>, es: Seq<Entity>, e: Entity)
    ensures
        despawn_each(w, es.push(e)) == despawn_one(despawn_each(w, es), e),
    decreases es.len(),
{
    if es.len() == 0 {
        assert(es.push(e).drop_first() =~= Seq::<Entity>::empty());
        assert(es.push(e)[0] == e);
        assert(despawn_each(despawn_one(w, e), Seq::<Entity>::empty()) == despawn_one(w, e));
    } else {
        assert(es.push(e).drop_first() =~= es.drop_first().push(e));
        assert(es.push(e)[0] == es[0]);
        lemma_despawn_each_push(despawn_one(w, es[0]), es.drop_first(), e);
    }
}

/// The view of a newly spawned entity.
pub open spec fn fresh_entity<T, P>(
    instance: Option<T>,
    bundle: PrototypeBundle,
    placement: Option<P>,
) -> EntityView<T, P> {
    EntityView {
        alive: true,
        instance,
        bundle,
        placement,
        parent: None,
        contents: Seq::empty(),
    }
}

struct EntityRecord<T, P> {
    alive: bool,
    instance: Option<T>,
    bundle: PrototypeBundle,
    placement: Option<P>,
    parent: Option<Entity>,
    contents: Vec<Entity>,
}

impl<T: Copy, P> View for EntityRecord<T, P> {
    type V = EntityView<T, P>;

    closed spec fn view(&self) -> EntityView<T, P> {
        EntityView {
            alive: self.alive,
            instance: self.instance,
            bundle: self.bundle,
            placement: self.placement,
            parent: self.parent,
            contents: self.contents@,
        }
    }
}

/// The entities of a game world, with the components that this library
/// reads and writes.
pub struct World<T, P> {
    records: Vec<EntityRecord<T, P>>,
    origin: P,
}

impl<T: Copy, P> View for World<T, P> {
    type V = WorldView<T, P>;

    closed spec fn view(&self) -> WorldView<T, P> {
        self.records@.map_values(|r: EntityRecord<T, P>| r@)
    }
}

impl<T: Copy, P: Copy> World<T, P> {
    /// The world's links are consistent; see [`world_wf`].
    pub open spec fn wf(&self) -> bool {
        world_wf(self@)
    }

    /// The placement that entities spawned without one are given.
    pub closed spec fn spawn_origin(&self) -> P {
        self.origin
    }

    /// An empty world whose entities are spawned at `origin` unless placed
    /// elsewhere.
    pub fn new(origin: P) -> (r: World<T, P>)
        ensures
            r@ == Seq::<EntityView<T, P>>::empty(),
            r.spawn_origin() == origin,
            r.wf(),
    {
        let r = World { records: Vec::new(), origin };
        assert(r@ =~= Seq::<EntityView<T, P>>::empty());
        r
    }

    /// Creates an entity with the given tag, components and placement.
    pub fn spawn_bundle(
        &mut self,
        instance: Option<T>,
        bundle: PrototypeBundle,
        placement: Option<P>,
    ) -> (r: Entity)
        requires
            old(self)@.len() < usize::MAX,
        ensures
            r.index == old(self)@.len(),
            final(self)@ == old(self)@.push(fresh_entity(instance, bundle, placement)),
            old(self).wf() ==> final(self).wf(),
            placement is Some || !bundle.is_item() ==> (no_stray_items(old(self)@) ==> no_stray_items(
                final(self)@,
            )),
    {
        let index = self.records.len();
        let ghost old_view = self@;
        self.records.push(
            EntityRecord {
                alive: true,
                instance,
                bundle,
                placement,
                parent: None,
                contents: Vec::new(),
            },
        );
        assert(self@ =~= old_view.push(fresh_entity(instance, bundle, placement)));
        proof {
            if world_wf(old_view) {
                lemma_spawn_keeps_wf(old_view, fresh_entity(instance, bundle, placement));
            }
            if placement is Some || !bundle.is_item() {
                lemma_spawn_no_stray(old_view, fresh_entity(instance, bundle, placement));
            }
        }
        Entity { index }
    }

    pub fn origin(&self) -> (r: P)
        ensures
            r == self.spawn_origin(),
    {
        self.origin
    }

    pub fn len(&self) -> (r: usize)
        ensures
            r == self@.len(),
    {
        self.records.len()
    }

    pub fn is_alive(&self, e: Entity) -> (r: bool)
        ensures
            r == live(self@, e),
    {
        e.index < self.records.len() && self.records[e.index].alive
    }

    pub fn is_item(&self, e: Entity) -> (r: bool)
        ensures
            r == is_item(self@, e),
    {
        e.index < self.records.len() && self.records[e.index].alive
            && self.records[e.index].bundle.marks_item()
    }

    pub fn is_storage(&self, e: Entity) -> (r: bool)
        ensures
            r == is_storage(self@, e),
    {
        e.index < self.records.len() && self.records[e.index].alive
            && self.records[e.index].bundle.marks_storage()
    }

    /// The entity's own placement, if it is alive and has one.
    pub fn placement(&self, e: Entity) -> (r: Option<P>)
        ensures
            r == (if live(self@, e) {
                self@[e.index as int].placement
            } else {
                None
            }),
    {
        if e.index < self.records.len() && self.records[e.index].alive {
            self.records[e.index].placement
        } else {
            None
        }
    }

    /// The entity's parent link, if it is alive and has one.
    pub fn parent(&self, e: Entity) -> (r: Option<Entity>)
        ensures
            r == (if live(self@, e) {
                self@[e.index as int].parent
            } else {
                None
            }),
    {
        if e.index < self.records.len() && self.records[e.index].alive {
            self.records[e.index].parent
        } else {
            None
        }
    }

    /// The instance tag of the entity, if it has one.
    pub fn instance(&self, e: Entity) -> (r: Option<T>)
        ensures
            r == (if live(self@, e) {
                self@[e.index as int].instance
            } else {
                None
            }),
    {
        if e.index < self.records.len() && self.records[e.index].alive {
            self.records[e.index].instance
        } else {
            None
        }
    }

    /// The live instances of registry `K`, of key `id` when one is given, in
    /// the order they were spawned.
    pub fn instances<K: PrototypeId>(&self, id: Option<K>) -> (r: Vec<Entity>)
        where
            T: InstanceTag<K>,
        ensures
            ascending(r@),
            forall|e: Entity| r@.contains(e) <==> #[trigger] listed::<T, K, P>(self@, e, id),
    {
        let mut r: Vec<Entity> = Vec::new();
        let mut i: usize = 0;
        while i < self.records.len()
            invariant
                i <= self@.len(),
                ascending(r@),
                forall|k: int| 0 <= k < r@.len() ==> #[trigger] r@[k].index < i,
                forall|e: Entity|
                    r@.contains(e) <==> e.index < i && #[trigger] listed::<T, K, P>(self@, e, id),
            decreases self@.len() - i,
        {
            let e = Entity { index: i };
            let hit = if self.records[i].alive {
                match self.records[i].instance {
                    Some(t) => match t.key() {
                        Some(k) => match id {
                            Some(want) => k.same(&want),
                            None => true,
                        },
                        None => false,
                    },
                    None => false,
                }
            } else {
                false
            };
            let ghost before = r@;
            if hit {
                r.push(e);
            }
            proof {
                lemma_scan_step(before, r@, i, |x: Entity| listed::<T, K, P>(self@, x, id));
            }
            i = i + 1;
        }
        r
    }

    /// The instance tag of registry `K` that the entity carries, if it is
    /// alive and was spawned from that registry.
    pub fn prototype_instance<K: PrototypeId>(&self, e: Entity) -> (r: Option<PrototypeInstance<K>>)
        where
            T: InstanceTag<K>,
        ensures
            r is None <==> key_of::<T, K, P>(self@, e) is None,
            r matches Some(p) ==> key_of::<T, K, P>(self@, e) == Some(p@),
    {
        if e.index < self.records.len() && self.records[e.index].alive {
            match self.records[e.index].instance {
                Some(t) => match t.key() {
                    Some(k) => Some(PrototypeInstance::new(k)),
                    None => None,
                },
                None => None,
            }
        } else {
            None
        }
    }

    /// The items that a storage holds, in the order they were inserted. Empty
    /// for an entity that is not alive or holds nothing.
    pub fn contents(&self, storage: Entity) -> (r: Vec<Entity>)
        ensures
            r@ == (if live(self@, storage) {
                self@[storage.index as int].contents
            } else {
                Seq::<Entity>::empty()
            }),
    {
        let mut r: Vec<Entity> = Vec::new();
        if storage.index < self.records.len() && self.records[storage.index].alive {
            let cs = &self.records[storage.index].contents;
            let mut i: usize = 0;
            while i < cs.len()
                invariant
                    i <= cs@.len(),
                    r@ == cs@.subrange(0, i as int),
                decreases cs@.len() - i,
            {
                r.push(cs[i]);
                i = i + 1;
                assert(r@ =~= cs@.subrange(0, i as int));
            }
            assert(cs@.subrange(0, i as int) =~= cs@);
        } else {
            assert(r@ =~= Seq::<Entity>::empty());
        }
        r
    }

    /// The items in a corrupt state, neither in the world nor contained, in
    /// order of index.
    pub fn stray_items(&self) -> (r: Vec<Entity>)
        ensures
            ascending(r@),
            forall|e: Entity| r@.contains(e) <==> #[trigger] stray(self@, e),
    {
        let mut r: Vec<Entity> = Vec::new();
        let mut i: usize = 0;
        while i < self.records.len()
            invariant
                i <= self@.len(),
                ascending(r@),
                forall|k: int| 0 <= k < r@.len() ==> #[trigger] r@[k].index < i,
                forall|e: Entity| r@.contains(e) <==> e.index < i && #[trigger] stray(self@, e),
            decreases self@.len() - i,
        {
            let e = Entity { index: i };
            let rec = &self.records[i];
            let hit = rec.alive && rec.bundle.marks_item() && rec.placement.is_none()
                && rec.parent.is_none();
            let ghost before = r@;
            if hit {
                r.push(e);
            }
            proof {
                lemma_scan_step(before, r@, i, |x: Entity| stray(self@, x));
            }
            i = i + 1;
        }
        r
    }

    /// The entity's components, if it is alive.
    pub fn bundle(&self, e: Entity) -> (r: Option<&PrototypeBundle>)
        ensures
            r == (if live(self@, e) {
                Some(&self@[e.index as int].bundle)
            } else {
                None
            }),
    {
        if e.index < self.records.len() && self.records[e.index].alive {
            Some(&self.records[e.index].bundle)
        } else {
            None
        }
    }

    /// The state of an item; `None` when `e` is not a live item.
    pub fn item_state(&self, e: Entity) -> (r: Option<ItemState>)
        ensures
            r is None <==> !is_item(self@, e),
            r == Some(ItemState::World) <==> in_world(self@, e),
            r == Some(ItemState::Stray) <==> stray(self@, e),
            r matches Some(ItemState::Contained(s)) ==> contained(self@, e) && self@[e.index
                as int].parent == Some(s),
            contained(self@, e) ==> r == Some(ItemState::Contained(self@[e.index as int].parent->0)),
    {
        if !self.is_item(e) {
            return None;
        }
        match self.records[e.index].placement {
            Some(_) => Some(ItemState::World),
            None => match self.records[e.index].parent {
                Some(s) => Some(ItemState::Contained(s)),
                None => Some(ItemState::Stray),
            },
        }
    }

    /// Moves an entity that stands on its own placement to `placement`.
    /// Returns false, changing nothing, when `e` is not alive or has no
    /// placement of its own.
    pub fn relocate(&mut self, e: Entity, placement: P) -> (r: bool)
        requires
            old(self).wf(),
        ensures
            r == (live(old(self)@, e) && old(self)@[e.index as int].placement is Some),
            final(self)@ == (if r {
                old(self)@.update(
                    e.index as int,
                    EntityView { placement: Some(placement), ..old(self)@[e.index as int] },
                )
            } else {
                old(self)@
            }),
            final(self).wf(),
            no_stray_items(old(self)@) ==> no_stray_items(final(self)@),
    {
        if !self.is_alive(e) || self.records[e.index].placement.is_none() {
            return false;
        }
        let ghost w = self@;
        self.records[e.index].placement = Some(placement);
        proof {
            let n = self@;
            assert(n =~= w.update(e.index as int, EntityView { placement: Some(placement), ..w[e.index as int] }));
            assert(record_wf(w, e));
            assert forall|x: Entity| x.index < n.len() implies #[trigger] record_wf(n, x) by {
                assert(record_wf(w, x));
                let rx = w[x.index as int];
                if let Some(s) = rx.parent {
                    assert(parent_wf(n, x));
                }
                if rx.alive && rx.bundle.is_storage() {
                    assert forall|c: Entity| #[trigger] rx.contents.contains(c) implies is_item(n, c)
                        && n[c.index as int].parent == Some(x) by {}
                }
            }
            if no_stray_items(w) {
                assert forall|x: Entity| #[trigger] is_item(n, x) implies !stray(n, x) by {
                    assert(is_item(w, x));
                }
            }
        }
        true
    }

    /// Despawns `e` together with the items it holds, and takes it off the
    /// list of the storage that holds it. Returns whether `e` was alive.
    pub fn despawn(&mut self, e: Entity) -> (r: bool)
        requires
            old(self).wf(),
        ensures
            r == live(old(self)@, e),
            final(self)@ == (if r {
                after_despawn(old(self)@, e)
            } else {
                old(self)@
            }),
            final(self).wf(),
            no_stray_items(old(self)@) ==> no_stray_items(final(self)@),
    {
        if !self.is_alive(e) {
            return false;
        }
        let total = self.records.len();
        let ghost w = self@;
        let ghost r0 = w[e.index as int];
        proof {
            assert(record_wf(w, e));
            lemma_despawn_keeps_wf(w, e);
        }
        let n = self.records[e.index].contents.len();
        let mut k: usize = 0;
        while k < n
            invariant
                e.index < self@.len(),
                self@.len() == w.len(),
                n == r0.contents.len(),
                k <= n,
                r0.contents.no_duplicates(),
                self.records@[e.index as int].contents@ == r0.contents,
                self@[e.index as int] == w[e.index as int],
                forall|c: Entity| r0.contents.contains(c) ==> is_item(w, c) && c != e,
                forall|x: Entity|
                    x.index < w.len() ==> #[trigger] self@[x.index as int] == (if r0.contents.subrange(
                        0,
                        k as int,
                    ).contains(x) {
                        despawned(w[x.index as int])
                    } else {
                        w[x.index as int]
                    }),
            decreases n - k,
        {
            let c = self.records[e.index].contents[k];
            let ghost sub = r0.contents.subrange(0, k as int);
            let ghost sub1 = r0.contents.subrange(0, k + 1);
            proof {
                assert(r0.contents[k as int] == c);
                assert(r0.contents.contains(c));
                assert(sub1[k as int] == c);
                assert(!sub.contains(c)) by {
                    if sub.contains(c) {
                        let q = sub.index_of(c);
                        assert(r0.contents[q] == c);
                    }
                }
                assert(self@[c.index as int] == w[c.index as int]);
            }
            let ghost before = self@;
            self.records[c.index].alive = false;
            self.records[c.index].parent = None;
            self.records[c.index].contents = Vec::new();
            proof {
                assert(self.records@[c.index as int].contents@ =~= Seq::<Entity>::empty());
                assert(self@[c.index as int] == despawned(w[c.index as int]));
                assert forall|x: Entity| x.index < w.len() implies #[trigger] self@[x.index as int] == (
                if sub1.contains(x) {
                    despawned(w[x.index as int])
                } else {
                    w[x.index as int]
                }) by {
                    if x != c {
                        assert(self@[x.index as int] == before[x.index as int]);
                        if sub1.contains(x) {
                            let q = sub1.index_of(x);
                            assert(sub1[q] == x);
                            assert(q != k);
                            assert(sub[q] == x);
                        }
                        if sub.contains(x) {
                            let q = sub.index_of(x);
                            assert(sub1[q] == x);
                        }
                    }
                }
            }
            k = k + 1;
        }
        proof {
            assert(r0.contents.subrange(0, n as int) =~= r0.contents);
        }
        let ghost mid = self@;
        match self.records[e.index].parent {
            Some(s) => {
                proof {
                    assert(record_wf(w, s));
                    assert(!r0.contents.contains(s));
                }
                let m = self.records[s.index].contents.len();
                let mut j: usize = 0;
                while j < m && self.records[s.index].contents[j] != e
                    invariant
                        s.index < self@.len(),
                        self@.len() == w.len(),
                        m == self@[s.index as int].contents.len(),
                        self@[s.index as int] == w[s.index as int],
                        j <= m,
                        forall|q: int| 0 <= q < j ==> w[s.index as int].contents[q] != e,
                    decreases m - j,
                {
                    j = j + 1;
                }
                proof {
                    let cs = w[s.index as int].contents;
                    if j == m {
                        let q = cs.index_of(e);
                        assert(cs[q] == e);
                    }
                    assert(cs[j as int] == e);
                    assert(cs.index_of(e) == j);
                }
                self.records[s.index].contents.remove(j);
            },
            None => {},
        }
        self.records[e.index].alive = false;
        self.records[e.index].parent = None;
        self.records[e.index].contents = Vec::new();
        proof {
            let target = after_despawn(w, e);
            assert(self.records@[e.index as int].contents@ =~= Seq::<Entity>::empty());
            assert forall|i: int| 0 <= i < w.len() implies #[trigger] self@[i] == target[i] by {
                assert(i < total);
                let x = Entity { index: i as usize };
                assert(x.index as int == i);
                assert(mid[x.index as int] == (if r0.contents.contains(x) {
                    despawned(w[i])
                } else {
                    w[i]
                }));
                if i == e.index {
                    assert(!r0.contents.contains(e));
                }
            }
            assert(self@ =~= target);
        }
        true
    }

    /// Despawns the first live instance of key `id` of registry `K`, or all of
    /// them when `all` is set. Returns the instances found, in the order they
    /// were spawned; each is despawned in turn unless an earlier despawn
    /// already took it with the storage that held it.
    pub fn despawn_instances<K: PrototypeId>(&mut self, id: K, all: bool) -> (r: Vec<Entity>)
        where
            T: InstanceTag<K>,
        requires
            old(self).wf(),
        ensures
            final(self).wf(),
            no_stray_items(old(self)@) ==> no_stray_items(final(self)@),
            final(self)@ == despawn_each(old(self)@, r@),
            ascending(r@),
            forall|e: Entity| r@.contains(e) ==> #[trigger] listed::<T, K, P>(old(self)@, e, Some(id)),
            all ==> forall|e: Entity|
                #[trigger] listed::<T, K, P>(old(self)@, e, Some(id)) ==> r@.contains(e),
            !all ==> r@.len() <= 1,
            !all ==> forall|e: Entity| #[trigger]
                listed::<T, K, P>(old(self)@, e, Some(id)) ==> r@.len() == 1 && r@[0].index
                    <= e.index,
    {
        let found = self.instances(Some(id));
        let ghost w0 = self@;
        if !all {
            if found.len() == 0 {
                let r: Vec<Entity> = Vec::new();
                proof {
                    assert forall|e: Entity| #[trigger]
                        listed::<T, K, P>(w0, e, Some(id)) implies r@.len() == 1 && r@[0].index
                        <= e.index by {
                        assert(found@.contains(e));
                    }
                    assert(despawn_each(w0, r@) == w0);
                }
                return r;
            }
            let first = found[0];
            self.despawn(first);
            let mut r: Vec<Entity> = Vec::new();
            r.push(first);
            proof {
                assert(found@.contains(first));
                assert forall|e: Entity| #[trigger]
                    listed::<T, K, P>(w0, e, Some(id)) implies r@.len() == 1 && r@[0].index
                    <= e.index by {
                    assert(found@.contains(e));
                    let k = found@.index_of(e);
                    if k > 0 {
                        assert(found@[0].index < found@[k].index);
                    }
                }
                assert forall|e: Entity| r@.contains(e) implies #[trigger] listed::<T, K, P>(
                    w0,
                    e,
                    Some(id),
                ) by {
                    assert(r@[0] == first);
                }
                assert(r@.drop_first() =~= Seq::<Entity>::empty());
                assert(r@[0] == first);
                assert(despawn_each(despawn_one(w0, first), Seq::<Entity>::empty()) == despawn_one(
                    w0,
                    first,
                ));
            }
            return r;
        }
        let mut i: usize = 0;
        proof {
            assert(found@.subrange(0, 0) =~= Seq::<Entity>::empty());
        }
        while i < found.len()
            invariant
                i <= found@.len(),
                self.wf(),
                no_stray_items(w0) ==> no_stray_items(self@),
                self@ == despawn_each(w0, found@.subrange(0, i as int)),
            decreases found@.len() - i,
        {
            let e = found[i];
            proof {
                assert(found@.subrange(0, i + 1) =~= found@.subrange(0, i as int).push(e));
                lemma_despawn_each_push(w0, found@.subrange(0, i as int), e);
            }
            if self.is_alive(e) {
                self.despawn(e);
            }
            i = i + 1;
        }
        proof {
            assert(found@.subrange(0, i as int) =~= found@);
        }
        found
    }

    /// Applies an insert now: see [`InsertItemCommand`].
    pub fn insert_item(&mut self, c: InsertItemCommand) -> (r: Result<(), TransferError>)
        requires
            old(self).wf(),
        ensures
            r == insert_outcome(old(self)@, c),
            final(self)@ == (if r is Ok {
                after_insert(old(self)@, c)
            } else {
                old(self)@
            }),
            final(self).wf(),
    {
        if !self.is_item(c.item) {
            return Err(TransferError::NotAnItem);
        }
        if !self.is_storage(c.storage) {
            return Err(TransferError::NotAStorage);
        }
        if self.records[c.item.index].placement.is_none() {
            return Err(TransferError::ItemNotInWorld);
        }
        let ghost w = self@;
        proof {
            lemma_insert_keeps_wf(w, c);
        }
        self.records[c.item.index].placement = None;
        self.records[c.item.index].parent = Some(c.storage);
        self.records[c.storage.index].contents.push(c.item);
        assert(self@ =~= after_insert(w, c));
        Ok(())
    }

    /// Applies a drop now: see [`DropItemCommand`].
    pub fn drop_item(&mut self, c: DropItemCommand) -> (r: Result<(), TransferError>)
        requires
            old(self).wf(),
        ensures
            r == drop_outcome(old(self)@, c),
            final(self)@ == (if r is Ok {
                after_drop(old(self)@, c)
            } else {
                old(self)@
            }),
            final(self).wf(),
    {
        if !self.is_item(c.item) {
            return Err(TransferError::NotAnItem);
        }
        if !self.is_storage(c.storage) {
            return Err(TransferError::NotAStorage);
        }
        let linked = match self.records[c.item.index].parent {
            Some(p) => p == c.storage,
            None => false,
        };
        if !linked {
            return Err(TransferError::ItemNotInStorage);
        }
        let placement = self.records[c.storage.index].placement;
        if placement.is_none() {
            return Err(TransferError::StorageNotPlaced);
        }
        let ghost w = self@;
        proof {
            assert(record_wf(w, c.item));
            assert(record_wf(w, c.storage));
        }
        let n = self.records[c.storage.index].contents.len();
        let mut j: usize = 0;
        while j < n && self.records[c.storage.index].contents[j] != c.item
            invariant
                self@ == w,
                n == w[c.storage.index as int].contents.len(),
                c.storage.index < w.len(),
                j <= n,
                forall|k: int| 0 <= k < j ==> w[c.storage.index as int].contents[k] != c.item,
            decreases n - j,
        {
            j = j + 1;
        }
        proof {
            let cs = w[c.storage.index as int].contents;
            if j == n {
                let k = cs.index_of(c.item);
                assert(cs[k] == c.item);
            }
            assert(cs[j as int] == c.item);
            assert(cs.index_of(c.item) == j);
            lemma_drop_keeps_wf(w, c);
        }
        self.records[c.storage.index].contents.remove(j);
        self.records[c.item.index].parent = None;
        self.records[c.item.index].placement = placement;
        assert(self@ =~= after_drop(w, c));
        Ok(())
    }
}

/// An accepted drop keeps the world's links consistent.
pub proof fn lemma_drop_keeps_wf<T, P>(w: WorldView<T, P>, c: DropItemCommand)
    requires
        world_wf(w),
        drop_outcome(w, c) is Ok,
    ensures
        world_wf(after_drop(w, c)),
{
    let n = after_drop(w, c);
    let item = c.item;
    let storage = c.storage;
    assert(record_wf(w, item));
    assert(record_wf(w, storage));
    let old_cs = w[storage.index as int].contents;
    let j = old_cs.index_of(item);
    assert(old_cs[j] == item);
    let new_cs = old_cs.remove(j);
    lemma_remove_unique(old_cs, j);
    assert forall|e: Entity| e.index < n.len() implies #[trigger] record_wf(n, e) by {
        assert(record_wf(w, e));
        let r = n[e.index as int];
        if e == item {
            assert(parent_wf(n, e));
            assert(contents_wf(n, e));
        } else if e == storage {
            assert(r.contents == new_cs);
            assert forall|x: Entity| #[trigger] new_cs.contains(x) implies is_item(n, x)
                && n[x.index as int].parent == Some(e) by {
                assert(old_cs.contains(x));
            }
            assert(parent_wf(n, e));
            assert(contents_wf(n, e));
        } else {
            if let Some(s) = r.parent {
                assert(w[s.index as int].contents.contains(e));
                if s == storage {
                    assert(new_cs.contains(e));
                }
            }
            assert(parent_wf(n, e));
            if r.alive && r.bundle.is_storage() {
                assert forall|x: Entity| #[trigger] r.contents.contains(x) implies is_item(n, x)
                    && n[x.index as int].parent == Some(e) by {
                    assert(w[e.index as int].contents.contains(x));
                    if x == item {
                        assert(w[item.index as int].parent == Some(e));
                    }
                }
            }
            assert(contents_wf(n, e));
        }
    }
}

/// Adding an entity that is placed, or is not an item, creates no stray item.
pub proof fn lemma_spawn_no_stray<T, P>(w: WorldView<T, P>, v: EntityView<T, P>)
    requires
        v.placement is Some || !v.bundle.is_item(),
    ensures
        no_stray_items(w) ==> no_stray_items(w.push(v)),
{
    let n = w.push(v);
    if no_stray_items(w) {
        assert forall|e: Entity| #[trigger] is_item(n, e) implies !stray(n, e) by {
            if e.index < w.len() {
                assert(is_item(w, e));
            }
        }
    }
}

/// Adding a fresh entity keeps the world's links consistent.
pub proof fn lemma_spawn_keeps_wf<T, P>(w: WorldView<T, P>, v: EntityView<T, P>)
    requires
        world_wf(w),
        v.parent is None,
        v.contents.len() == 0,
    ensures
        world_wf(w.push(v)),
{
    let n = w.push(v);
    assert forall|e: Entity| e.index < n.len() implies #[trigger] record_wf(n, e) by {
        if e.index < w.len() {
            assert(record_wf(w, e));
            let r = w[e.index as int];
            if let Some(s) = r.parent {
                assert(parent_wf(n, e));
            }
            if r.alive && r.bundle.is_storage() {
                assert forall|x: Entity| #[trigger] r.contents.contains(x) implies is_item(n, x)
                    && n[x.index as int].parent == Some(e) by {}
            }
        }
    }
}

/// One step of a scan over indices that lists, in ascending order, the
/// entities that satisfy `pred`: the entity at index `i` is appended when it
/// satisfies `pred`.
pub proof fn lemma_scan_step(
    before: Seq<Entity>,
    after: Seq<Entity>,
    i: usize,
    pred: spec_fn(Entity) -> bool,
)
    requires
        ascending(before),
        forall|k: int| 0 <= k < before.len() ==> #[trigger] before[k].index < i,
        forall|x: Entity| before.contains(x) <==> x.index < i && #[trigger] pred(x),
        after == (if pred(Entity { index: i }) {
            before.push(Entity { index: i })
        } else {
            before
        }),
    ensures
        ascending(after),
        forall|k: int| 0 <= k < after.len() ==> #[trigger] after[k].index < i + 1,
        forall|x: Entity| #[trigger] after.contains(x) <==> x.index < i + 1 && pred(x),
{
    let e = Entity { index: i };
    assert forall|x: Entity| after.contains(x) <==> x.index < i + 1 && #[trigger] pred(x) by {
        if after.contains(x) && x != e {
            let k = after.index_of(x);
            assert(before[k] == x);
            assert(before.contains(x));
        }
        if x.index < i && before.contains(x) {
            let k = before.index_of(x);
            assert(after[k] == x);
        }
        if x.index == i {
            assert(x == e);
            if pred(e) {
                assert(after[before.len() as int] == e);
            } else if after.contains(x) {
                let k = after.index_of(x);
                assert(after[k].index < i);
            }
        }
    }
}

/// Removing the element at `j` from a sequence without duplicates removes
/// exactly that value and keeps the rest free of duplicates.
pub proof fn lemma_remove_unique<A>(s: Seq<A>, j: int)
    requires
        s.no_duplicates(),
        0 <= j < s.len(),
    ensures
        s.remove(j).no_duplicates(),
        forall|x: A| #[trigger] s.remove(j).contains(x) <==> s.contains(x) && x != s[j],
{
    let n = s.remove(j);
    s.remove_ensures(j);
    assert forall|x: A| #[trigger] n.contains(x) implies s.contains(x) && x != s[j] by {
        let k = n.index_of(x);
        if k < j {
            assert(s[k] == x);
        } else {
            assert(s[k + 1] == x);
        }
    }
    assert forall|x: A| #[trigger] s.contains(x) && x != s[j] implies n.contains(x) by {
        let k = s.index_of(x);
        if k < j {
            assert(n[k] == x);
        } else {
            assert(n[k - 1] == x);
        }
    }
    assert forall|a: int, b: int| 0 <= a < n.len() && 0 <= b < n.len() && a != b implies n[a]
        != n[b] by {
        let a2 = if a < j { a } else { a + 1 };
        let b2 = if b < j { b } else { b + 1 };
        assert(n[a] == s[a2]);
        assert(n[b] == s[b2]);
    }
}

/// Despawning keeps the world's links consistent and creates no stray item.
pub proof fn lemma_despawn_keeps_wf<T, P>(w: WorldView<T, P>, e: Entity)
    requires
        world_wf(w),
        live(w, e),
    ensures
        world_wf(after_despawn(w, e)),
        no_stray_items(w) ==> no_stray_items(after_despawn(w, e)),
{
    let n = after_despawn(w, e);
    let r = w[e.index as int];
    assert(record_wf(w, e));
    let gone = |x: Entity| x == e || r.contents.contains(x);
    assert forall|x: Entity| x.index < w.len() implies (#[trigger] gone(x) <==> (x.index == e.index
        || r.contents.contains(Entity { index: x.index }))) by {}
    if let Some(s) = r.parent {
        assert(record_wf(w, s));
        let cs = w[s.index as int].contents;
        let j = cs.index_of(e);
        assert(cs[j] == e);
        lemma_remove_unique(cs, j);
    }
    assert forall|x: Entity| x.index < n.len() implies #[trigger] record_wf(n, x) by {
        assert(record_wf(w, x));
        let rx = w[x.index as int];
        if gone(x) {
            assert(parent_wf(n, x));
            assert(contents_wf(n, x));
        } else if r.parent == Some(x) {
            let cs = w[x.index as int].contents;
            let j = cs.index_of(e);
            assert(n[x.index as int].contents == cs.remove(j));
            assert forall|c: Entity| #[trigger] cs.remove(j).contains(c) implies is_item(n, c)
                && n[c.index as int].parent == Some(x) by {
                assert(cs.contains(c));
                assert(w[c.index as int].parent == Some(x));
                if r.contents.contains(c) {
                    assert(w[c.index as int].parent == Some(e));
                }
            }
            assert(parent_wf(n, x));
            assert(contents_wf(n, x));
        } else {
            assert(n[x.index as int] == rx);
            if let Some(s) = rx.parent {
                assert(record_wf(w, s));
                if r.contents.contains(s) {
                    assert(w[s.index as int].parent == Some(e));
                }
                if s == e {
                    assert(r.contents.contains(x));
                }
                if r.parent == Some(s) {
                    let cs = w[s.index as int].contents;
                    assert(cs.contains(x));
                }
                assert(!gone(s));
            }
            assert(parent_wf(n, x));
            if rx.alive && rx.bundle.is_storage() {
                assert forall|c: Entity| #[trigger] rx.contents.contains(c) implies is_item(n, c)
                    && n[c.index as int].parent == Some(x) by {
                    assert(w[c.index as int].parent == Some(x));
                    if c == e {
                        assert(r.parent == Some(x));
                    }
                    if r.contents.contains(c) {
                        assert(w[c.index as int].parent == Some(e));
                    }
                }
            }
            assert(contents_wf(n, x));
        }
    }
    if no_stray_items(w) {
        assert forall|x: Entity| #[trigger] is_item(n, x) implies !stray(n, x) by {
            assert(!gone(x));
            assert(is_item(w, x));
        }
    }
}

/// An accepted insert keeps the world's links consistent.
pub proof fn lemma_insert_keeps_wf<T, P>(w: WorldView<T, P>, c: InsertItemCommand)
    requires
        world_wf(w),
        insert_outcome(w, c) is Ok,
    ensures
        world_wf(after_insert(w, c)),
{
    let n = after_insert(w, c);
    let item = c.item;
    let storage = c.storage;
    assert(record_wf(w, item));
    assert(record_wf(w, storage));
    let old_cs = w[storage.index as int].contents;
    assert(!old_cs.contains(item)) by {
        if old_cs.contains(item) {
            assert(w[item.index as int].parent == Some(storage));
        }
    }
    assert forall|e: Entity| e.index < n.len() implies #[trigger] record_wf(n, e) by {
        assert(record_wf(w, e));
        let r = n[e.index as int];
        if e == item {
            assert(n[storage.index as int].contents.last() == item);
            assert(parent_wf(n, e));
            assert(contents_wf(n, e));
        } else if e == storage {
            let cs = r.contents;
            assert(cs == old_cs.push(item));
            assert forall|x: Entity| #[trigger] cs.contains(x) implies is_item(n, x)
                && n[x.index as int].parent == Some(e) by {
                if x != item {
                    let k = cs.index_of(x);
                    assert(old_cs[k] == x);
                    assert(old_cs.contains(x));
                }
            }
            assert(cs.no_duplicates()) by {
                assert forall|i: int, j: int|
                    0 <= i < cs.len() && 0 <= j < cs.len() && i != j implies cs[i] != cs[j] by {
                    if i == cs.len() - 1 {
                        assert(old_cs[j] == cs[j]);
                        assert(old_cs.contains(cs[j]));
                    } else if j == cs.len() - 1 {
                        assert(old_cs[i] == cs[i]);
                        assert(old_cs.contains(cs[i]));
                    }
                }
            }
            assert(parent_wf(n, e));
            assert(contents_wf(n, e));
        } else {
            if let Some(s) = r.parent {
                assert(w[s.index as int].contents.contains(e));
                if s == storage {
                    let k = old_cs.index_of(e);
                    assert(n[s.index as int].contents[k] == e);
                }
            }
            assert(parent_wf(n, e));
            if r.alive && r.bundle.is_storage() {
                assert forall|x: Entity| #[trigger] r.contents.contains(x) implies is_item(n, x)
                    && n[x.index as int].parent == Some(e) by {
                    assert(w[e.index as int].contents.contains(x));
                    if x == item {
                        assert(w[item.index as int].parent == Some(e));
                    }
                }
            }
            assert(contents_wf(n, e));
        }
    }
}

} // verus!
