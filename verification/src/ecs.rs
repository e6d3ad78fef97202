use vstd::prelude::*;
use std::collections::hash_map::Entry;
use std::collections::{HashMap, HashSet};

verus! {

broadcast use vstd::std_specs::hash::group_hash_axioms;

/// A lightweight handle for a game object: just an integer id.
#[derive(Debug, Clone, Copy, PartialEq, Eq, Structural, Hash, PartialOrd, Ord)]
pub struct Entity(pub u64);

/// The central entity–component store.
///
/// Components are values of one type `C` (typically an enum of the game's
/// component types) stored under a `kind` number: the store maps each kind
/// to a map from entity id to component, so that an entity holds at most
/// one component of each kind.
pub struct World<C> {
    next_id: u64,
    alive: HashSet<u64>,
    store: HashMap<u64, HashMap<u64, C>>,
    dead_queue: Vec<Entity>,
}

/// The ids that map `m` holds, each once.
fn key_list<V>(m: &HashMap<u64, V>) -> (ks: Vec<u64>)
    ensures
        ks@.no_duplicates(),
        forall|k: u64| #[trigger] ks@.contains(k) <==> m@.contains_key(k),
{
    let mut r: Vec<u64> = Vec::new();
    for id in it: m.keys()
        invariant
            it.seq().no_duplicates(),
            it.seq().unref().to_set() == m@.dom(),
            r@.len() == it.index(),
            forall|j: int| 0 <= j < r@.len() ==> #[trigger] r@[j] == *it.seq()[j],
            r@.no_duplicates(),
            forall|x: u64| #[trigger] r@.contains(x) ==> m@.contains_key(x),
            forall|x: u64|
                #[trigger] m@.contains_key(x) ==> r@.contains(x) || exists|j: int|
                    it.index() <= j < it.seq().len() && *it.seq()[j] == x,
    {
        let ghost idx = it.index() as int;
        let ghost ks = it.seq().unref();
        proof {
            assert(ks[idx] == *id);
            assert(ks.to_set().contains(*id));
            if r@.contains(*id) {
                let j = choose|j: int| 0 <= j < r@.len() && r@[j] == *id;
                assert(*it.seq()[j] == *id);
            }
        }
        let ghost prev = r@;
        r.push(*id);
        proof {
            assert forall|x: u64| #[trigger] r@.contains(x) implies m@.contains_key(x) by {
                let j = choose|j: int| 0 <= j < r@.len() && r@[j] == x;
                if j < prev.len() {
                    assert(prev[j] == x);
                    assert(prev.contains(x));
                } else {
                    assert(x == *id);
                }
            }
            assert forall|x: u64| #[trigger] m@.contains_key(x) implies r@.contains(x) || exists|j: int|
                idx + 1 <= j < it.seq().len() && *it.seq()[j] == x by {
                if prev.contains(x) {
                    let j = choose|j: int| 0 <= j < prev.len() && prev[j] == x;
                    assert(r@[j] == x);
                } else if x == *id {
                    assert(r@[idx] == x);
                } else {
                    let j = choose|j: int| idx <= j < it.seq().len() && *it.seq()[j] == x;
                    assert(j != idx);
                }
            }
        }
    }
    r
}

impl<C> World<C> {
    /// Ids of the entities that are alive.
    pub closed spec fn living(&self) -> Set<u64> {
        self.alive@
    }

    /// The component of each kind attached to each entity.
    pub closed spec fn components(&self) -> Map<(u64, Entity), C> {
        Map::new(
            |k: (u64, Entity)| self.store@.contains_key(k.0) && self.store@[k.0]@.contains_key(k.1.0),
            |k: (u64, Entity)| self.store@[k.0]@[k.1.0],
        )
    }

    /// The id the next spawned entity receives.
    pub closed spec fn next_id(&self) -> u64 {
        self.next_id
    }

    /// Entities queued for removal, in the order they were queued.
    pub closed spec fn pending(&self) -> Seq<Entity> {
        self.dead_queue@
    }

    /// Finitely many entities are alive, each with an id that was handed
    /// out before the next one.
    pub open spec fn wf(&self) -> bool {
        &&& self.next_id() >= 1
        &&& self.living().finite()
        &&& forall|id: u64| #[trigger] self.living().contains(id) ==> 1 <= id < self.next_id()
    }

    pub fn new() -> (w: Self)
        ensures
            w.wf(),
            w.living() == Set::<u64>::empty(),
            w.next_id() == 1,
            w.pending() == Seq::<Entity>::empty(),
            w.components() == Map::<(u64, Entity), C>::empty(),
    {
        let w = World { next_id: 1, alive: HashSet::new(), store: HashMap::new(), dead_queue: Vec::new() };
        assert(w.components() =~= Map::<(u64, Entity), C>::empty());
        w
    }

    /// Whether another entity can be spawned: ids are not yet used up.
    pub fn can_spawn(&self) -> (b: bool)
        ensures
            b == (self.next_id() < u64::MAX),
    {
        self.next_id < u64::MAX
    }

    /// Begin building a new entity: it gets the next id and is alive at once.
    pub fn spawn(&mut self) -> (b: EntityBuilder<'_, C>)
        requires
            old(self).wf(),
            old(self).next_id() < u64::MAX,
        ensures
            b.entity == Entity(old(self).next_id()),
            b.world.wf(),
            !old(self).living().contains(b.entity.0),
            b.world.living() == old(self).living().insert(b.entity.0),
            b.world.next_id() == old(self).next_id() + 1,
            b.world.pending() == old(self).pending(),
            b.world.components() == old(self).components(),
            *final(self) == *final(b.world),
    {
        let id = Entity(self.next_id);
        self.next_id = self.next_id + 1;
        self.alive.insert(id.0);
        EntityBuilder { entity: id, world: self }
    }

    /// Schedule an entity for removal at the end of the current frame.
    pub fn despawn(&mut self, entity: Entity)
        requires
            old(self).wf(),
        ensures
            final(self).wf(),
            final(self).pending() == old(self).pending().push(entity),
            final(self).living() == old(self).living(),
            final(self).next_id() == old(self).next_id(),
            final(self).components() == old(self).components(),
    {
        self.dead_queue.push(entity);
    }

    pub fn is_alive(&self, entity: Entity) -> (b: bool)
        requires
            self.wf(),
        ensures
            b == self.living().contains(entity.0),
    {
        self.alive.contains(&entity.0)
    }

    /// Number of entities alive.
    pub fn entity_count(&self) -> (n: usize)
        requires
            self.wf(),
        ensures
            n == self.living().len(),
    {
        self.alive.len()
    }

    /// Attach `component` as the `kind` component of `entity`, replacing
    /// any component of that kind it had.
    pub fn add(&mut self, entity: Entity, kind: u64, component: C)
        requires
            old(self).wf(),
        ensures
            final(self).wf(),
            final(self).components() == old(self).components().insert((kind, entity), component),
            final(self).living() == old(self).living(),
            final(self).next_id() == old(self).next_id(),
            final(self).pending() == old(self).pending(),
    {
        let storage = self.store.entry(kind).or_insert(HashMap::new());
        storage.insert(entity.0, component);
        assert(self.components() =~= old(self).components().insert((kind, entity), component));
    }

    /// Detach the `kind` component of `entity`, if it has one.
    pub fn remove(&mut self, entity: Entity, kind: u64)
        requires
            old(self).wf(),
        ensures
            final(self).wf(),
            final(self).components() == old(self).components().remove((kind, entity)),
            final(self).living() == old(self).living(),
            final(self).next_id() == old(self).next_id(),
            final(self).pending() == old(self).pending(),
    {
        if self.store.contains_key(&kind) {
            let storage = self.store.entry(kind).or_insert(HashMap::new());
            storage.remove(&entity.0);
        }
        assert(self.components() =~= old(self).components().remove((kind, entity)));
    }

    pub fn has(&self, entity: Entity, kind: u64) -> (b: bool)
        requires
            self.wf(),
        ensures
            b == self.components().contains_key((kind, entity)),
    {
        match self.store.get(&kind) {
            Some(storage) => storage.contains_key(&entity.0),
            None => false,
        }
    }

    pub fn get(&self, entity: Entity, kind: u64) -> (r: Option<&C>)
        requires
            self.wf(),
        ensures
            match r {
                Some(v) => self.components().contains_key((kind, entity)) && *v == self.components()[(
                kind,
                entity,
            )],
                None => !self.components().contains_key((kind, entity)),
            },
    {
        match self.store.get(&kind) {
            Some(storage) => storage.get(&entity.0),
            None => None,
        }
    }

    pub fn get_mut(&mut self, entity: Entity, kind: u64) -> (r: Option<&mut C>)
        requires
            old(self).wf(),
        ensures
            match r {
                Some(v) => {
                    &&& old(self).components().contains_key((kind, entity))
                    &&& *v == old(self).components()[(kind, entity)]
                    &&& final(self).wf()
                    &&& final(self).components() == old(self).components().insert(
                        (kind, entity),
                        *final(v),
                    )
                    &&& final(self).living() == old(self).living()
                    &&& final(self).next_id() == old(self).next_id()
                    &&& final(self).pending() == old(self).pending()
                },
                None => {
                    &&& !old(self).components().contains_key((kind, entity))
                    &&& *final(self) == *old(self)
                },
            },
    {
        if !self.has(entity, kind) {
            return None;
        }
        let storage = self.store.entry(kind).or_insert(HashMap::new());
        match storage.entry(entity.0) {
            Entry::Occupied(slot) => Some(slot.into_mut()),
            Entry::Vacant(_) => {
                assert(false);
                None
            },
        }
    }

    /// All entities that carry a component of `kind`, each once.
    pub fn entities_with(&self, kind: u64) -> (r: Vec<Entity>)
        requires
            self.wf(),
        ensures
            r@.no_duplicates(),
            forall|e: Entity| #[trigger] r@.contains(e) <==> self.components().contains_key((kind, e)),
    {
        let mut r: Vec<Entity> = Vec::new();
        match self.store.get(&kind) {
            None => {},
            Some(storage) => {
                let ids = key_list(storage);
                let mut i: usize = 0;
                while i < ids.len()
                    invariant
                        i <= ids@.len(),
                        ids@.no_duplicates(),
                        r@.len() == i,
                        forall|j: int| 0 <= j < i ==> #[trigger] r@[j] == Entity(ids@[j]),
                    decreases ids@.len() - i,
                {
                    r.push(Entity(ids[i]));
                    i = i + 1;
                }
                proof {
                    assert forall|a: int, b: int| 0 <= a < b < r@.len() implies r@[a] != r@[b] by {
                        assert(r@[a] == Entity(ids@[a]) && r@[b] == Entity(ids@[b]));
                    }
                    assert forall|e: Entity| #[trigger] r@.contains(e) <==> self.components().contains_key(
                        (kind, e),
                    ) by {
                        if r@.contains(e) {
                            let j = choose|j: int| 0 <= j < r@.len() && r@[j] == e;
                            assert(ids@.contains(ids@[j]));
                        }
                        if self.components().contains_key((kind, e)) {
                            assert(ids@.contains(e.0));
                            let j = choose|j: int| 0 <= j < ids@.len() && ids@[j] == e.0;
                            assert(r@[j] == e);
                        }
                    }
                }
            },
        }
        r
    }

    /// Every entity that carries a component of `kind`, each once, with that
    /// component.
    pub fn query(&self, kind: u64) -> (r: Vec<(Entity, &C)>)
        requires
            self.wf(),
        ensures
            forall|m: int, n: int| 0 <= m < n < r@.len() ==> r@[m].0 != r@[n].0,
            forall|m: int|
                0 <= m < r@.len() ==> {
                    &&& self.components().contains_key((kind, #[trigger] r@[m].0))
                    &&& *r@[m].1 == self.components()[(kind, r@[m].0)]
                },
            forall|e: Entity|
                #[trigger] self.components().contains_key((kind, e)) ==> exists|m: int|
                    0 <= m < r@.len() && r@[m].0 == e,
    {
        let mut r: Vec<(Entity, &C)> = Vec::new();
        match self.store.get(&kind) {
            None => {},
            Some(sa) => {
                let ids = key_list(sa);
                let mut i: usize = 0;
                while i < ids.len()
                    invariant
                        i <= ids@.len(),
                        ids@.no_duplicates(),
                        forall|k: u64| #[trigger] ids@.contains(k) <==> sa@.contains_key(k),
                        self.store@.contains_key(kind) && self.store@[kind] == *sa,
                        r@.len() == i,
                        forall|j: int|
                            0 <= j < i ==> {
                                &&& #[trigger] r@[j].0 == Entity(ids@[j])
                                &&& *r@[j].1 == sa@[ids@[j]]
                            },
                    decreases ids@.len() - i,
                {
                    let id = ids[i];
                    assert(ids@.contains(id));
                    match sa.get(&id) {
                        Some(ca) => {
                            r.push((Entity(id), ca));
                        },
                        None => {
                            assert(false);
                        },
                    }
                    i = i + 1;
                }
                proof {
                    assert forall|m: int, n: int| 0 <= m < n < r@.len() implies r@[m].0 != r@[n].0 by {
                        assert(r@[m].0 == Entity(ids@[m]) && r@[n].0 == Entity(ids@[n]));
                    }
                    assert forall|m: int| 0 <= m < r@.len() implies {
                        &&& self.components().contains_key((kind, #[trigger] r@[m].0))
                        &&& *r@[m].1 == self.components()[(kind, r@[m].0)]
                    } by {
                        assert(r@[m].0 == Entity(ids@[m]));
                        assert(ids@.contains(ids@[m]));
                    }
                    assert forall|e: Entity| #[trigger] self.components().contains_key((kind, e)) implies exists|m: int|
                        0 <= m < r@.len() && r@[m].0 == e by {
                        assert(ids@.contains(e.0));
                        let j = choose|j: int| 0 <= j < ids@.len() && ids@[j] == e.0;
                        assert(r@[j].0 == e);
                    }
                }
            },
        }
        r
    }

    /// Every entity that carries components of both kinds `a` and `b`, each
    /// once, with those two components.
    pub fn query2(&self, a: u64, b: u64) -> (r: Vec<(Entity, &C, &C)>)
        requires
            self.wf(),
        ensures
            forall|m: int, n: int| 0 <= m < n < r@.len() ==> r@[m].0 != r@[n].0,
            forall|m: int|
                0 <= m < r@.len() ==> {
                    &&& self.components().contains_key((a, #[trigger] r@[m].0))
                    &&& self.components().contains_key((b, r@[m].0))
                    &&& *r@[m].1 == self.components()[(a, r@[m].0)]
                    &&& *r@[m].2 == self.components()[(b, r@[m].0)]
                },
            forall|e: Entity|
                #[trigger] self.components().contains_key((a, e)) && self.components().contains_key(
                    (b, e),
                ) ==> exists|m: int| 0 <= m < r@.len() && r@[m].0 == e,
    {
        let mut r: Vec<(Entity, &C, &C)> = Vec::new();
        let sa = match self.store.get(&a) {
            Some(s) => s,
            None => {
                return r;
            },
        };
        let sb = match self.store.get(&b) {
            Some(s) => s,
            None => {
                return r;
            },
        };
        let ids = key_list(sa);
        let ghost mut src: Seq<int> = Seq::empty();
        let mut i: usize = 0;
        while i < ids.len()
            invariant
                i <= ids@.len(),
                forall|k: u64| #[trigger] ids@.contains(k) <==> sa@.contains_key(k),
                r@.len() == src.len(),
                forall|m: int| 0 <= m < src.len() ==> 0 <= #[trigger] src[m] < i,
                forall|m: int, n: int| 0 <= m < n < src.len() ==> src[m] < src[n],
                forall|m: int|
                    0 <= m < r@.len() ==> {
                        let id = ids@[src[m]];
                        &&& (#[trigger] r@[m]).0 == Entity(id)
                        &&& sb@.contains_key(id)
                        &&& *r@[m].1 == sa@[id]
                        &&& *r@[m].2 == sb@[id]
                    },
                forall|j: int| 0 <= j < i && sb@.contains_key(#[trigger] ids@[j]) ==> src.contains(j),
            decreases ids@.len() - i,
        {
            let id = ids[i];
            assert(ids@.contains(id));
            match sa.get(&id) {
                Some(ca) => {
                    match sb.get(&id) {
                        Some(cb) => {
                            let ghost (pr, ps) = (r@, src);
                            r.push((Entity(id), ca, cb));
                            proof {
                                src = src.push(i as int);
                                assert forall|m: int| 0 <= m < r@.len() implies {
                                    let id = ids@[src[m]];
                                    &&& (#[trigger] r@[m]).0 == Entity(id)
                                    &&& sb@.contains_key(id)
                                    &&& *r@[m].1 == sa@[id]
                                    &&& *r@[m].2 == sb@[id]
                                } by {
                                    if m < pr.len() {
                                        assert(r@[m] == pr[m] && src[m] == ps[m]);
                                    }
                                }
                                assert forall|j: int| 0 <= j < i + 1 && sb@.contains_key(#[trigger] ids@[j]) implies src.contains(j) by {
                                    if j == i {
                                        assert(src[src.len() - 1] == j);
                                    } else {
                                        let m = choose|m: int| 0 <= m < ps.len() && ps[m] == j;
                                        assert(src[m] == j);
                                    }
                                }
                            }
                        },
                        None => {},
                    }
                },
                None => {
                    assert(false);
                },
            }
            i = i + 1;
        }
        proof {
            assert forall|m: int, n: int| 0 <= m < n < r@.len() implies r@[m].0 != r@[n].0 by {
                assert(r@[m].0 == Entity(ids@[src[m]]) && r@[n].0 == Entity(ids@[src[n]]));
            }
            assert forall|m: int| 0 <= m < r@.len() implies {
                &&& self.components().contains_key((a, #[trigger] r@[m].0))
                &&& self.components().contains_key((b, r@[m].0))
                &&& *r@[m].1 == self.components()[(a, r@[m].0)]
                &&& *r@[m].2 == self.components()[(b, r@[m].0)]
            } by {
                assert(ids@.contains(ids@[src[m]]));
            }
            assert forall|e: Entity|
                #[trigger] self.components().contains_key((a, e)) && self.components().contains_key(
                    (b, e),
                ) implies exists|m: int| 0 <= m < r@.len() && r@[m].0 == e by {
                assert(ids@.contains(e.0));
                let j = choose|j: int| 0 <= j < ids@.len() && ids@[j] == e.0;
                assert(sb@.contains_key(ids@[j]));
                assert(src.contains(j));
                let m = choose|m: int| 0 <= m < src.len() && src[m] == j;
                assert(r@[m].0 == e);
            }
        }
        r
    }

    /// Every entity that carries components of all three kinds `a`, `b` and
    /// `c`, each once, with those three components.
    pub fn query3(&self, a: u64, b: u64, c: u64) -> (r: Vec<(Entity, &C, &C, &C)>)
        requires
            self.wf(),
        ensures
            forall|m: int, n: int| 0 <= m < n < r@.len() ==> r@[m].0 != r@[n].0,
            forall|m: int|
                0 <= m < r@.len() ==> {
                    &&& self.components().contains_key((a, #[trigger] r@[m].0))
                    &&& self.components().contains_key((b, r@[m].0))
                    &&& self.components().contains_key((c, r@[m].0))
                    &&& *r@[m].1 == self.components()[(a, r@[m].0)]
                    &&& *r@[m].2 == self.components()[(b, r@[m].0)]
                    &&& *r@[m].3 == self.components()[(c, r@[m].0)]
                },
            forall|e: Entity|
                #[trigger] self.components().contains_key((a, e)) && self.components().contains_key(
                    (b, e),
                ) && self.components().contains_key((c, e)) ==> exists|m: int|
                    0 <= m < r@.len() && r@[m].0 == e,
    {
        let mut r: Vec<(Entity, &C, &C, &C)> = Vec::new();
        let sa = match self.store.get(&a) {
            Some(s) => s,
            None => {
                return r;
            },
        };
        let sb = match self.store.get(&b) {
            Some(s) => s,
            None => {
                return r;
            },
        };
        let sc = match self.store.get(&c) {
            Some(s) => s,
            None => {
                return r;
            },
        };
        let ids = key_list(sa);
        let ghost mut src: Seq<int> = Seq::empty();
        let mut i: usize = 0;
        while i < ids.len()
            invariant
                i <= ids@.len(),
                forall|k: u64| #[trigger] ids@.contains(k) <==> sa@.contains_key(k),
                r@.len() == src.len(),
                forall|m: int| 0 <= m < src.len() ==> 0 <= #[trigger] src[m] < i,
                forall|m: int, n: int| 0 <= m < n < src.len() ==> src[m] < src[n],
                forall|m: int|
                    0 <= m < r@.len() ==> {
                        let id = ids@[src[m]];
                        &&& (#[trigger] r@[m]).0 == Entity(id)
                        &&& sb@.contains_key(id)
                        &&& sc@.contains_key(id)
                        &&& *r@[m].1 == sa@[id]
                        &&& *r@[m].2 == sb@[id]
                        &&& *r@[m].3 == sc@[id]
                    },
                forall|j: int| 0 <= j < i && sb@.contains_key(#[trigger] ids@[j]) && sc@.contains_key(ids@[j]) ==> src.contains(j),
            decreases ids@.len() - i,
        {
            let id = ids[i];
            assert(ids@.contains(id));
            match sa.get(&id) {
                Some(ca) => {
                    match (sb.get(&id), sc.get(&id)) {
                        (Some(cb), Some(cc)) => {
                            let ghost (pr, ps) = (r@, src);
                            r.push((Entity(id), ca, cb, cc));
                            proof {
                                src = src.push(i as int);
                                assert forall|m: int| 0 <= m < r@.len() implies {
                                    let id = ids@[src[m]];
                                    &&& (#[trigger] r@[m]).0 == Entity(id)
                                    &&& sb@.contains_key(id)
                                    &&& sc@.contains_key(id)
                                    &&& *r@[m].1 == sa@[id]
                                    &&& *r@[m].2 == sb@[id]
                                    &&& *r@[m].3 == sc@[id]
                                } by {
                                    if m < pr.len() {
                                        assert(r@[m] == pr[m] && src[m] == ps[m]);
                                    }
                                }
                                assert forall|j: int| 0 <= j < i + 1 && sb@.contains_key(#[trigger] ids@[j]) && sc@.contains_key(ids@[j]) implies src.contains(j) by {
                                    if j == i {
                                        assert(src[src.len() - 1] == j);
                                    } else {
                                        let m = choose|m: int| 0 <= m < ps.len() && ps[m] == j;
                                        assert(src[m] == j);
                                    }
                                }
                            }
                        },
                        _ => {},
                    }
                },
                None => {
                    assert(false);
                },
            }
            i = i + 1;
        }
        proof {
            assert forall|m: int, n: int| 0 <= m < n < r@.len() implies r@[m].0 != r@[n].0 by {
                assert(r@[m].0 == Entity(ids@[src[m]]) && r@[n].0 == Entity(ids@[src[n]]));
            }
            assert forall|m: int| 0 <= m < r@.len() implies {
                &&& self.components().contains_key((a, #[trigger] r@[m].0))
                &&& self.components().contains_key((b, r@[m].0))
                &&& self.components().contains_key((c, r@[m].0))
                &&& *r@[m].1 == self.components()[(a, r@[m].0)]
                &&& *r@[m].2 == self.components()[(b, r@[m].0)]
                &&& *r@[m].3 == self.components()[(c, r@[m].0)]
            } by {
                assert(ids@.contains(ids@[src[m]]));
            }
            assert forall|e: Entity|
                #[trigger] self.components().contains_key((a, e)) && self.components().contains_key(
                    (b, e),
                ) && self.components().contains_key((c, e)) implies exists|m: int| 0 <= m < r@.len() && r@[m].0 == e by {
                assert(ids@.contains(e.0));
                let j = choose|j: int| 0 <= j < ids@.len() && ids@[j] == e.0;
                assert(sb@.contains_key(ids@[j]) && sc@.contains_key(ids@[j]));
                assert(src.contains(j));
                let m = choose|m: int| 0 <= m < src.len() && src[m] == j;
                assert(r@[m].0 == e);
            }
        }
        r
    }
}

/// Ids of the entities named in a removal queue.
pub open spec fn queued_ids(q: Seq<Entity>) -> Set<u64> {
    Set::new(|id: u64| q.contains(Entity(id)))
}

/// The (kind, entity) keys that belong to an entity named in a removal queue.
pub open spec fn queued_keys(q: Seq<Entity>) -> Set<(u64, Entity)> {
    Set::new(|k: (u64, Entity)| q.contains(k.1))
}

proof fn lemma_take_next_contains<A>(s: Seq<A>, j: int, x: A)
    requires
        0 <= j < s.len(),
    ensures
        s.take(j + 1).contains(x) <==> s.take(j).contains(x) || s[j] == x,
{
    if s.take(j + 1).contains(x) {
        let k = choose|k: int| 0 <= k < j + 1 && #[trigger] s.take(j + 1)[k] == x;
        if k < j {
            assert(s.take(j)[k] == x);
        }
    }
    if s.take(j).contains(x) {
        let k = choose|k: int| 0 <= k < j && #[trigger] s.take(j)[k] == x;
        assert(s.take(j + 1)[k] == x);
    }
    if s[j] == x {
        assert(s.take(j + 1)[j] == x);
    }
}

impl<C> World<C> {
    /// Remove every queued entity: it is no longer alive and loses all its
    /// components. Call once per frame.
    pub fn flush_dead(&mut self)
        requires
            old(self).wf(),
        ensures
            final(self).wf(),
            final(self).pending() == Seq::<Entity>::empty(),
            final(self).next_id() == old(self).next_id(),
            final(self).living() == old(self).living().difference(queued_ids(old(self).pending())),
            final(self).components() == old(self).components().remove_keys(
                queued_keys(old(self).pending()),
            ),
    {
        let mut dead: Vec<Entity> = Vec::new();
        std::mem::swap(&mut dead, &mut self.dead_queue);
        let kinds = key_list(&self.store);
        let ghost a0 = self.alive@;
        let ghost c0 = self.components();
        let mut i: usize = 0;
        assert(c0.remove_keys(queued_keys(dead@.take(0))) =~= c0);
        assert(a0.difference(queued_ids(dead@.take(0))) =~= a0);
        while i < dead.len()
            invariant
                i <= dead@.len(),
                dead@ == old(self).pending(),
                a0 == old(self).living(),
                c0 == old(self).components(),
                self.wf(),
                self.alive@ == a0.difference(queued_ids(dead@.take(i as int))),
                self.components() == c0.remove_keys(queued_keys(dead@.take(i as int))),
                forall|k: (u64, Entity)| #[trigger] self.components().contains_key(k) ==> kinds@.contains(k.0),
                self.next_id == old(self).next_id,
                self.dead_queue@ == Seq::<Entity>::empty(),
            decreases dead@.len() - i,
        {
            let e = dead[i];
            self.alive.remove(&e.0);
            assert(self.alive@ =~= a0.difference(queued_ids(dead@.take(i + 1)))) by {
                assert forall|id: u64| #[trigger] dead@.take(i + 1).contains(Entity(id))
                    <==> dead@.take(i as int).contains(Entity(id)) || dead@[i as int] == Entity(id) by {
                    lemma_take_next_contains(dead@, i as int, Entity(id));
                }
            }
            let ghost ci = self.components();
            let mut j: usize = 0;
            assert(ci.remove_keys(Set::new(|k: (u64, Entity)| k.1 == e && kinds@.take(0).contains(k.0))) =~= ci);
            while j < kinds.len()
                invariant
                    j <= kinds@.len(),
                    self.wf(),
                    self.components() == ci.remove_keys(
                        Set::new(|k: (u64, Entity)| k.1 == e && kinds@.take(j as int).contains(k.0)),
                    ),
                    self.alive@ == a0.difference(queued_ids(dead@.take(i + 1))),
                    self.next_id == old(self).next_id,
                    self.dead_queue@ == Seq::<Entity>::empty(),
                decreases kinds@.len() - j,
            {
                let ghost cj = self.components();
                self.remove(e, kinds[j]);
                assert(self.components() =~= ci.remove_keys(
                    Set::new(|k: (u64, Entity)| k.1 == e && kinds@.take(j + 1).contains(k.0)),
                )) by {
                    assert forall|x: u64| kinds@.take(j + 1).contains(x) <==> kinds@.take(j as int).contains(x)
                        || kinds@[j as int] == x by {
                        lemma_take_next_contains(kinds@, j as int, x);
                    }
                }
                j = j + 1;
            }
            assert(kinds@.take(kinds@.len() as int) =~= kinds@);
            assert(self.components() =~= c0.remove_keys(queued_keys(dead@.take(i + 1)))) by {
                assert forall|k: (u64, Entity)| #[trigger] dead@.take(i + 1).contains(k.1)
                    <==> dead@.take(i as int).contains(k.1) || dead@[i as int] == k.1 by {
                    lemma_take_next_contains(dead@, i as int, k.1);
                }
            }
            i = i + 1;
        }
        assert(dead@.take(dead@.len() as int) =~= dead@);
    }

    /// All live entities, each once.
    pub fn all_entities(&self) -> (r: Vec<Entity>)
        requires
            self.wf(),
        ensures
            r@.no_duplicates(),
            forall|e: Entity| #[trigger] r@.contains(e) <==> self.living().contains(e.0),
    {
        let mut r: Vec<Entity> = Vec::new();
        for id in it: self.alive.iter()
            invariant
                it.seq().no_duplicates(),
                it.seq().unref().to_set() == self.alive@,
                r@.len() == it.index(),
                forall|m: int| 0 <= m < r@.len() ==> #[trigger] r@[m] == Entity(*it.seq()[m]),
                r@.no_duplicates(),
                forall|e: Entity| #[trigger] r@.contains(e) ==> self.alive@.contains(e.0),
                forall|x: u64|
                    #[trigger] self.alive@.contains(x) ==> r@.contains(Entity(x)) || exists|m: int|
                        it.index() <= m < it.seq().len() && *it.seq()[m] == x,
        {
            let ghost idx = it.index() as int;
            let ghost ks = it.seq().unref();
            proof {
                assert(ks[idx] == *id);
                assert(ks.to_set().contains(*id));
                if r@.contains(Entity(*id)) {
                    let m = choose|m: int| 0 <= m < r@.len() && r@[m] == Entity(*id);
                    assert(*it.seq()[m] == *id);
                }
            }
            assert(self.alive@.contains(*id));
            let ghost prev = r@;
            r.push(Entity(*id));
            proof {
                assert forall|e: Entity| #[trigger] r@.contains(e) implies self.alive@.contains(e.0) by {
                    let m = choose|m: int| 0 <= m < r@.len() && r@[m] == e;
                    if m < prev.len() {
                        assert(prev[m] == e);
                        assert(prev.contains(e));
                    } else {
                        assert(e.0 == *id);
                        assert(ks.to_set().contains(*id));
                    }
                }
                assert forall|x: u64| #[trigger] self.alive@.contains(x) implies r@.contains(Entity(x))
                    || exists|m: int| idx + 1 <= m < it.seq().len() && *it.seq()[m] == x by {
                    if prev.contains(Entity(x)) {
                        let m = choose|m: int| 0 <= m < prev.len() && prev[m] == Entity(x);
                        assert(r@[m] == Entity(x));
                    } else if x == *id {
                        assert(r@[idx] == Entity(x));
                    } else {
                        let m = choose|m: int| idx <= m < it.seq().len() && *it.seq()[m] == x;
                        assert(m != idx);
                    }
                }
            }
        }
        r
    }
}

impl<C> Default for World<C> {
    fn default() -> (w: Self)
        ensures
            w.wf(),
            w.living() == Set::<u64>::empty(),
            w.next_id() == 1,
            w.pending() == Seq::<Entity>::empty(),
            w.components() == Map::<(u64, Entity), C>::empty(),
    {
        Self::new()
    }
}

// ── Laws ─────────────────────────────────────────────────────────────────────

/// Reading a component back after `add` gives what was added, and no other
/// (kind, entity) slot changes.
pub proof fn law_add_then_get<C>(before: World<C>, after: World<C>, entity: Entity, kind: u64, component: C)
    requires
        after.components() == before.components().insert((kind, entity), component),
    ensures
        after.components().contains_key((kind, entity)),
        after.components()[(kind, entity)] == component,
        forall|k: (u64, Entity)|
            k != (kind, entity) ==> (#[trigger] after.components().contains_key(k)
                == before.components().contains_key(k) && (before.components().contains_key(k)
                ==> after.components()[k] == before.components()[k])),
{
}

/// Removing a component that was just added to a slot that was empty
/// restores the store as it was.
pub proof fn law_add_then_remove<C>(
    before: World<C>,
    added: World<C>,
    removed: World<C>,
    entity: Entity,
    kind: u64,
    component: C,
)
    requires
        !before.components().contains_key((kind, entity)),
        added.components() == before.components().insert((kind, entity), component),
        removed.components() == added.components().remove((kind, entity)),
    ensures
        removed.components() == before.components(),
{
    assert(removed.components() =~= before.components());
}

/// A despawned entity stays alive until the queue is flushed; after the
/// flush it is dead and has no components left.
pub proof fn law_despawn_then_flush<C>(
    before: World<C>,
    queued: World<C>,
    flushed: World<C>,
    entity: Entity,
)
    requires
        queued.pending() == before.pending().push(entity),
        queued.living() == before.living(),
        flushed.living() == queued.living().difference(queued_ids(queued.pending())),
        flushed.components() == queued.components().remove_keys(queued_keys(queued.pending())),
    ensures
        queued.living().contains(entity.0) == before.living().contains(entity.0),
        !flushed.living().contains(entity.0),
        forall|kind: u64| !(#[trigger] flushed.components().contains_key((kind, entity))),
{
    assert(queued.pending()[queued.pending().len() - 1] == entity);
    assert(queued.pending().contains(entity));
    assert(queued_ids(queued.pending()).contains(entity.0));
    assert forall|kind: u64| !(#[trigger] flushed.components().contains_key((kind, entity))) by {
        assert(queued_keys(queued.pending()).contains((kind, entity)));
    }
}

/// Flushing an empty queue changes neither the live set nor the components.
pub proof fn law_flush_empty_queue<C>(before: World<C>, after: World<C>)
    requires
        before.pending() == Seq::<Entity>::empty(),
        after.living() == before.living().difference(queued_ids(before.pending())),
        after.components() == before.components().remove_keys(queued_keys(before.pending())),
    ensures
        after.living() == before.living(),
        after.components() == before.components(),
{
    assert(after.living() =~= before.living());
    assert(after.components() =~= before.components());
}

/// Spawning adds exactly one new live entity, with an id never handed out
/// before, and the next spawn uses a larger id.
pub proof fn law_spawn_adds_one<C>(before: World<C>, after: World<C>, spawned: Entity)
    requires
        before.wf(),
        spawned == Entity(before.next_id()),
        after.living() == before.living().insert(spawned.0),
        after.next_id() == before.next_id() + 1,
    ensures
        !before.living().contains(spawned.0),
        after.living().len() == before.living().len() + 1,
        after.next_id() > spawned.0,
{
    assert(!before.living().contains(spawned.0));
}

/// Fluent builder for attaching components to a freshly spawned entity.
pub struct EntityBuilder<'w, C> {
    pub entity: Entity,
    pub world: &'w mut World<C>,
}

impl<'w, C> EntityBuilder<'w, C> {
    /// Attach a component and continue building.
    pub fn with(self, kind: u64, component: C) -> (b: Self)
        requires
            old(self.world).wf(),
        ensures
            b.entity == self.entity,
            b.world.wf(),
            b.world.components() == old(self.world).components().insert((kind, self.entity), component),
            b.world.living() == old(self.world).living(),
            b.world.next_id() == old(self.world).next_id(),
            b.world.pending() == old(self.world).pending(),
            *final(b.world) == *final(self.world),
    {
        self.world.add(self.entity, kind, component);
        self
    }

    /// Finish building and return the entity handle.
    pub fn build(self) -> (e: Entity)
        ensures
            e == self.entity,
            *final(self.world) == *old(self.world),
    {
        self.entity
    }
}

} // verus!
