use vstd::prelude::*;
use vstd::string::*;

use crate::components::PrototypeBundle;
use crate::world::{fresh_entity, key_of, no_stray_items, Entity, World};

verus! {

/// A key naming a template: copyable, comparable, and convertible to and
/// from text.
pub trait PrototypeId: Sized + Copy {
    /// The text that `display` produces.
    spec fn display_spec(self) -> Seq<char>;

    /// What `parse` returns for a text.
    spec fn parse_spec(s: Seq<char>) -> Option<Self>;

    fn display(&self) -> (r: String)
        ensures
            r@ == self.display_spec(),
    ;

    fn parse(s: &str) -> (r: Option<Self>)
        ensures
            r == Self::parse_spec(s@),
    ;

    fn same(&self, other: &Self) -> (r: bool)
        ensures
            r == (*self == *other),
    ;

    /// Parsing what `display` produced gives the key back.
    proof fn lemma_parse_display(x: Self)
        ensures
            Self::parse_spec(x.display_spec()) == Some(x),
    ;
}


/// For every key, parsing the text that `display` gives yields the key again.
pub proof fn lemma_round_trip<K: PrototypeId>(x: K)
    ensures
        K::parse_spec(x.display_spec()) == Some(x),
{
    K::lemma_parse_display(x);
}

/// A tag type that can hold the keys of one registry. A world carries one tag
/// type; it may hold the keys of several registries, each through its own
/// implementation of this trait.
pub trait InstanceTag<K>: Sized + Copy {
    /// The tag that marks an entity spawned under `id`.
    spec fn tag_spec(id: K) -> Self;

    /// The key of this registry that the tag holds, if it holds one.
    spec fn key_spec(self) -> Option<K>;

    fn tag(id: K) -> (r: Self)
        ensures
            r == Self::tag_spec(id),
    ;

    fn key(&self) -> (r: Option<K>)
        ensures
            r == self.key_spec(),
    ;

    /// A tag gives back the key it was made from.
    proof fn lemma_key_of_tag(id: K)
        ensures
            Self::tag_spec(id).key_spec() == Some(id),
    ;
}

/// The tag that every entity spawned from a registry carries: the key of the
/// template it came from.
#[derive(Debug)]
pub struct PrototypeInstance<K>(K);

impl<K: PrototypeId> View for PrototypeInstance<K> {
    type V = K;

    closed spec fn view(&self) -> K {
        self.0
    }
}

impl<K: PrototypeId> PrototypeInstance<K> {
    pub fn new(id: K) -> (r: PrototypeInstance<K>)
        ensures
            r@ == id,
    {
        PrototypeInstance(id)
    }

    pub fn id(&self) -> (r: K)
        ensures
            r == self@,
    {
        self.0
    }
}


/// A key that no template is registered under.
#[derive(PartialEq, Eq, Structural, Debug)]
pub struct LookupError<K> {
    pub id: K,
}

impl<K: PrototypeId> LookupError<K> {
    /// The text of the error, naming the key.
    pub open spec fn message_spec(self) -> Seq<char> {
        "Prototype with id '"@ + self.id.display_spec() + "' does not exist in registry"@
    }

    pub fn message(&self) -> (r: String)
        ensures
            r@ == self.message_spec(),
    {
        let mut text = String::from_str("Prototype with id '");
        let id = self.id.display();
        text.append(id.as_str());
        text.append("' does not exist in registry");
        text
    }
}

/// The templates that entities can be spawned from, each under its own key.
///
/// The entries are a vector searched in order, with the invariant that no
/// key occurs twice. A hash map would look keys up in constant time, but its
/// contract cannot be proved for a key type that is a parameter: vstd
/// specifies `HashMap` only for key types known to hash consistently with
/// their equality. Registries hold a handful of templates.
pub struct PrototypeRegistry<K> {
    entries: Vec<(K, PrototypeBundle)>,
}

/// No key occurs twice in the entries.
pub open spec fn keys_unique<K>(s: Seq<(K, PrototypeBundle)>) -> bool {
    forall|i: int, j: int| 0 <= i < s.len() && 0 <= j < s.len() && i != j ==> s[i].0 != s[j].0
}

/// The map that a sequence of registrations builds: a later template
/// replaces an earlier one under the same key.
pub open spec fn map_of_pairs<K>(s: Seq<(K, PrototypeBundle)>) -> Map<K, PrototypeBundle>
    decreases s.len(),
{
    if s.len() == 0 {
        Map::empty()
    } else {
        map_of_pairs(s.drop_last()).insert(s.last().0, s.last().1)
    }
}

impl<K: PrototypeId> View for PrototypeRegistry<K> {
    type V = Map<K, PrototypeBundle>;

    closed spec fn view(&self) -> Map<K, PrototypeBundle> {
        Map::new(
            |k: K| exists|i: int| 0 <= i < self.entries@.len() && self.entries@[i].0 == k,
            |k: K|
                self.entries@[choose|i: int| 0 <= i < self.entries@.len() && self.entries@[i].0 == k].1,
        )
    }
}

impl<K: PrototypeId> PrototypeRegistry<K> {
    pub closed spec fn wf(&self) -> bool {
        keys_unique(self.entries@)
    }

    proof fn lemma_view_at(&self, i: int)
        requires
            self.wf(),
            0 <= i < self.entries@.len(),
        ensures
            self@.contains_key(self.entries@[i].0),
            self@[self.entries@[i].0] == self.entries@[i].1,
    {
        let k = self.entries@[i].0;
        assert(self@.contains_key(k));
        let j = choose|j: int| 0 <= j < self.entries@.len() && self.entries@[j].0 == k;
        assert(j == i);
    }

    /// An empty registry.
    pub fn new() -> (r: PrototypeRegistry<K>)
        ensures
            r.wf(),
            r@ == Map::<K, PrototypeBundle>::empty(),
    {
        let r = PrototypeRegistry { entries: Vec::new() };
        assert(r@ =~= Map::<K, PrototypeBundle>::empty());
        r
    }

    /// Builds a registry from (key, template) pairs, a later pair replacing an
    /// earlier one under the same key.
    pub fn from_pairs(pairs: Vec<(K, PrototypeBundle)>) -> (r: PrototypeRegistry<K>)
        ensures
            r.wf(),
            r@ == map_of_pairs(pairs@),
    {
        let ghost all = pairs@;
        let total = pairs.len();
        let mut rest = pairs;
        let mut r = PrototypeRegistry::new();
        let mut i: usize = 0;
        proof {
            assert(all.subrange(0, 0) =~= Seq::<(K, PrototypeBundle)>::empty());
            assert(all.subrange(0, all.len() as int) =~= all);
        }
        while rest.len() > 0
            invariant
                r.wf(),
                all.len() == total,
                i <= all.len(),
                rest@ == all.subrange(i as int, all.len() as int),
                r@ == map_of_pairs(all.subrange(0, i as int)),
            decreases rest@.len(),
        {
            let (id, template) = rest.remove(0);
            proof {
                assert(all.subrange(0, i + 1).drop_last() =~= all.subrange(0, i as int));
                assert(all[i as int] == (id, template));
            }
            r.register(id, template);
            i = i + 1;
            proof {
                assert(rest@ =~= all.subrange(i as int, all.len() as int));
            }
        }
        proof {
            assert(all.subrange(0, i as int) =~= all);
        }
        r
    }

    /// Where `id` stands in the entries, if it is registered.
    fn find(&self, id: K) -> (r: Option<usize>)
        requires
            self.wf(),
        ensures
            r is None <==> !self@.contains_key(id),
            r matches Some(i) ==> i < self.entries@.len() && self.entries@[i as int].0 == id,
    {
        let mut i: usize = 0;
        while i < self.entries.len()
            invariant
                i <= self.entries@.len(),
                forall|j: int| 0 <= j < i ==> self.entries@[j].0 != id,
            decreases self.entries@.len() - i,
        {
            if self.entries[i].0.same(&id) {
                return Some(i);
            }
            i = i + 1;
        }
        None
    }

    /// Whether a template is registered under `id`.
    pub fn contains(&self, id: K) -> (r: bool)
        requires
            self.wf(),
        ensures
            r == self@.contains_key(id),
    {
        self.find(id).is_some()
    }

    /// The template registered under `id`, if any.
    pub fn get(&self, id: K) -> (r: Option<&PrototypeBundle>)
        requires
            self.wf(),
        ensures
            r == (if self@.contains_key(id) {
                Some(&self@[id])
            } else {
                None
            }),
    {
        match self.find(id) {
            Some(i) => {
                proof {
                    self.lemma_view_at(i as int);
                }
                Some(&self.entries[i].1)
            },
            None => None,
        }
    }

    /// Spawns a fresh entity carrying the template registered under `id` and
    /// an instance tag holding `id`, placed at the world's origin. When `id`
    /// is not registered nothing is spawned and the key is reported.
    pub fn spawn<T: InstanceTag<K>, P: Copy>(&self, id: K, world: &mut World<T, P>) -> (r: Result<
        Entity,
        LookupError<K>,
    >)
        requires
            self.wf(),
            old(world)@.len() < usize::MAX,
        ensures
            r is Ok <==> self@.contains_key(id),
            r matches Ok(e) ==> {
                &&& e.index == old(world)@.len()
                &&& final(world)@ == old(world)@.push(fresh_entity(
                    Some(T::tag_spec(id)),
                    self@[id],
                    Some(old(world).spawn_origin()),
                ))
                &&& key_of::<T, K, P>(final(world)@, e) == Some(id)
            },
            r matches Err(err) ==> err.id == id && final(world)@ == old(world)@,
            old(world).wf() ==> final(world).wf(),
            no_stray_items(old(world)@) ==> no_stray_items(final(world)@),
    {
        match self.get(id) {
            Some(template) => {
                let origin = world.origin();
                let e = world.spawn_bundle(Some(T::tag(id)), template.duplicate(), Some(origin));
                proof {
                    T::lemma_key_of_tag(id);
                }
                Ok(e)
            },
            None => Err(LookupError { id }),
        }
    }

    /// Spawns as [`Self::spawn`] does, with the entity placed at `placement`.
    pub fn spawn_at<T: InstanceTag<K>, P: Copy>(
        &self,
        id: K,
        placement: P,
        world: &mut World<T, P>,
    ) -> (r: Result<
        Entity,
        LookupError<K>,
    >)
        requires
            self.wf(),
            old(world)@.len() < usize::MAX,
        ensures
            r is Ok <==> self@.contains_key(id),
            r matches Ok(e) ==> {
                &&& e.index == old(world)@.len()
                &&& final(world)@ == old(world)@.push(
                    fresh_entity(Some(T::tag_spec(id)), self@[id], Some(placement)),
                )
                &&& key_of::<T, K, P>(final(world)@, e) == Some(id)
            },
            r matches Err(err) ==> err.id == id && final(world)@ == old(world)@,
            old(world).wf() ==> final(world).wf(),
            no_stray_items(old(world)@) ==> no_stray_items(final(world)@),
    {
        match self.get(id) {
            Some(template) => {
                let e = world.spawn_bundle(Some(T::tag(id)), template.duplicate(), Some(placement));
                proof {
                    T::lemma_key_of_tag(id);
                }
                Ok(e)
            },
            None => Err(LookupError { id }),
        }
    }

    /// Registers `template` under `id`, replacing any template already there.
    pub fn register(&mut self, id: K, template: PrototypeBundle)
        requires
            old(self).wf(),
        ensures
            final(self).wf(),
            final(self)@ == old(self)@.insert(id, template),
    {
        let ghost old_reg = *self;
        match self.find(id) {
            Some(i) => {
                self.entries[i] = (id, template);
                proof {
                    assert(self.entries@[i as int] == (id, template));
                }
            },
            None => {
                self.entries.push((id, template));
                proof {
                    assert(self.entries@[old_reg.entries@.len() as int] == (id, template));
                }
            },
        }
        proof {
            self.lemma_view_updated(&old_reg, id, template);
        }
    }

    /// The entries differ from `old_reg`'s only where they now hold
    /// `(id, template)`: an entry under `id` replaced, or one appended. Then
    /// the map gains `template` under `id` and is otherwise unchanged.
    proof fn lemma_view_updated(&self, old_reg: &Self, id: K, template: PrototypeBundle)
        requires
            self.wf(),
            old_reg.wf(),
            old_reg.entries@.len() <= self.entries@.len(),
            forall|j: int|
                0 <= j < old_reg.entries@.len() ==> self.entries@[j] == old_reg.entries@[j] || (
                old_reg.entries@[j].0 == id && self.entries@[j] == (id, template)),
            forall|j: int|
                old_reg.entries@.len() <= j < self.entries@.len() ==> self.entries@[j] == (
                id,
                template,
            ),
            exists|j: int| 0 <= j < self.entries@.len() && self.entries@[j] == (id, template),
        ensures
            self@ == old_reg@.insert(id, template),
    {
        let j0 = choose|j: int| 0 <= j < self.entries@.len() && self.entries@[j] == (id, template);
        self.lemma_view_at(j0);
        assert forall|k: K| #[trigger] self@.contains_key(k) <==> old_reg@.insert(
            id,
            template,
        ).contains_key(k) by {
            if old_reg@.contains_key(k) {
                let j = choose|j: int|
                    0 <= j < old_reg.entries@.len() && old_reg.entries@[j].0 == k;
                assert(self.entries@[j].0 == k);
            }
            if self@.contains_key(k) && k != id {
                let j = choose|j: int| 0 <= j < self.entries@.len() && self.entries@[j].0 == k;
                assert(old_reg.entries@[j].0 == k);
            }
        }
        assert forall|k: K| #[trigger]
            self@.contains_key(k) implies self@[k] == old_reg@.insert(id, template)[k] by {
            let j = choose|j: int| 0 <= j < self.entries@.len() && self.entries@[j].0 == k;
            self.lemma_view_at(j);
            if k != id {
                old_reg.lemma_view_at(j);
            }
        }
        assert(self@ =~= old_reg@.insert(id, template));
    }
}

} // verus!
