use vstd::prelude::*;

use vstd::set_lib::{lemma_int_range, lemma_len_subset, set_int_range};

use crate::archetype::{
    byte_rows, clone_bytes, distinct, filter_retained, find_from, find_holder_from,
    ids_of, lemma_find_from,
    lemma_add_preserves_others, lemma_find_holder_from, lemma_find_unique,
    lemma_removed_preserves_others, retained_infos_from,
    retained_vals_from, same_ids, Archetype, ArchetypeSet, TypeInfo,
};
use crate::bundle::{
    bundle_map, clone_infos, ids_vec, lemma_bundle_map_concat, lemma_retained_map, Bundle,
};
use crate::entity::Entity;
use crate::query::{Query, QueryMut};

verus! {

/// The owner of all component storage: an entity-id allocator plus the
/// archetype registry, with the entity-to-archetype migration logic.
pub struct World {
    pub archetypes: ArchetypeSet,
    pub entities: Vec<Entity>,
    pub next_entity: u64,
}

impl World {
    /// Internal consistency: a well-formed registry, a duplicate-free list
    /// of live entity ids, and no identifier anywhere at or above the
    /// allocator's counter — ids are never reused.
    pub open spec fn wf(self) -> bool {
        &&& self.archetypes.wf()
        &&& distinct(self.entities@)
        &&& forall|k: int| 0 <= k < self.entities@.len()
            ==> (#[trigger] self.entities@[k]).0 < self.next_entity
        &&& forall|i: int, r: int|
            0 <= i < self.archetypes.n()
                && 0 <= r < self.archetypes.arch(i).entities@.len()
                ==> (#[trigger] self.archetypes.arch(i).entities@[r]).0 < self.next_entity
    }

    /// Whether the entity is on the books (spawned and not destroyed).
    pub open spec fn known(self, e: Entity) -> bool {
        self.entities@.contains(e)
    }

    /// Whether some archetype holds a row for the entity.
    pub open spec fn lives(self, e: Entity) -> bool {
        self.archetypes.lives(e)
    }

    /// Registry index of the archetype holding the entity, or -1.
    pub open spec fn holder_of(self, e: Entity) -> int {
        self.archetypes.holder_of(e)
    }

    /// The components an entity currently holds, as a map from type
    /// identifier to record; empty if the entity holds no row.
    pub open spec fn comp_map(self, e: Entity) -> Map<u64, Seq<u8>> {
        if self.lives(e) {
            let a = self.archetypes.arch(self.holder_of(e));
            Map::new(|tid: u64| a.has_tid(tid), |tid: u64| a.comp_of(e, tid))
        } else {
            Map::empty()
        }
    }

    /// What a read of the listed types returns: the entity's records in
    /// requested order, or nothing if the entity holds no row or lacks one
    /// of the types.
    pub open spec fn get_spec(self, e: Entity, ids: Seq<u64>) -> Option<Seq<Seq<u8>>> {
        if self.lives(e) && (forall|k: int|
            0 <= k < ids.len() ==> self.comp_map(e).dom().contains(ids[k])) {
            Some(Seq::new(ids.len(), |k: int| self.comp_map(e)[ids[k]]))
        } else {
            None
        }
    }

    /// Builds an empty world.
    pub fn new() -> (r: Self)
        ensures
            r.wf(),
            r.archetypes.n() == 0,
            r.entities@ == Seq::<Entity>::empty(),
            r.next_entity == 0,
            forall|e: Entity| !r.lives(e),
            forall|e: Entity| r.comp_map(e) == Map::<u64, Seq<u8>>::empty(),
    {
        World { archetypes: ArchetypeSet::new(), entities: Vec::new(), next_entity: 0 }
    }

    /// Issues the next entity id from the monotonic counter and records it
    /// as existing. Ids are never reused, so the fresh entity holds no row.
    pub fn spawn(&mut self) -> (r: Entity)
        requires
            old(self).wf(),
            old(self).next_entity < u64::MAX,
        ensures
            final(self).wf(),
            r.0 == old(self).next_entity,
            final(self).next_entity == old(self).next_entity + 1,
            final(self).entities@ == old(self).entities@.push(r),
            final(self).archetypes == old(self).archetypes,
            final(self).known(r),
            !old(self).known(r),
            !final(self).lives(r),
            final(self).comp_map(r) == Map::<u64, Seq<u8>>::empty(),
            forall|e: Entity| final(self).lives(e) == old(self).lives(e),
            forall|e: Entity| final(self).comp_map(e) == old(self).comp_map(e),
            forall|e: Entity| e != r ==> final(self).known(e) == old(self).known(e),
    {
        let entity = Entity(self.next_entity);
        self.entities.push(entity);
        self.next_entity = self.next_entity + 1;
        proof {
            let pre = *old(self);
            let post = *final(self);
            assert forall|k: int| 0 <= k < post.entities@.len()
                implies (#[trigger] post.entities@[k]).0 < post.next_entity by {
                if k < pre.entities@.len() {
                    assert(pre.entities@[k].0 < pre.next_entity);
                }
            }
            assert(distinct(post.entities@)) by {
                assert forall|a: int, b: int| 0 <= a < b < post.entities@.len()
                    implies post.entities@[a] != post.entities@[b] by {
                    if b == post.entities@.len() - 1 {
                        assert(pre.entities@[a].0 < pre.next_entity);
                    }
                }
            }
            assert(!pre.known(entity)) by {
                if pre.entities@.contains(entity) {
                    let k = choose|k: int|
                        0 <= k < pre.entities@.len() && pre.entities@[k] == entity;
                    assert(pre.entities@[k].0 < pre.next_entity);
                }
            }
            assert(post.entities@[post.entities@.len() - 1] == entity);
            assert(post.known(entity));
            assert forall|e: Entity| e != entity
                implies post.known(e) == pre.known(e) by {
                if pre.entities@.contains(e) {
                    let k = choose|k: int|
                        0 <= k < pre.entities@.len() && pre.entities@[k] == e;
                    assert(post.entities@[k] == e);
                }
                if post.entities@.contains(e) {
                    let k = choose|k: int|
                        0 <= k < post.entities@.len() && post.entities@[k] == e;
                    assert(k < pre.entities@.len());
                    assert(pre.entities@[k] == e);
                }
            }
            assert(!post.lives(entity)) by {
                if post.lives(entity) {
                    let i = choose|i: int|
                        0 <= i < post.archetypes.n()
                            && (#[trigger] post.archetypes.arch(i)).contains_entity(entity);
                    let r2 = choose|r2: int|
                        0 <= r2 < post.archetypes.arch(i).entities@.len()
                            && post.archetypes.arch(i).entities@[r2] == entity;
                    assert(pre.archetypes.arch(i).entities@[r2].0 < pre.next_entity);
                }
            }
        }
        entity
    }

    /// Destroys an entity: drops its bookkeeping record and destructs its
    /// row wherever it has one. Destroying a non-existent or
    /// already-destroyed entity changes nothing.
    pub fn destroy(&mut self, entity: Entity)
        requires
            old(self).wf(),
        ensures
            final(self).wf(),
            final(self).next_entity == old(self).next_entity,
            !final(self).known(entity),
            !final(self).lives(entity),
            final(self).comp_map(entity) == Map::<u64, Seq<u8>>::empty(),
            forall|e2: Entity| e2 != entity
                ==> final(self).known(e2) == old(self).known(e2),
            forall|e2: Entity| e2 != entity
                ==> final(self).lives(e2) == old(self).lives(e2),
            forall|e2: Entity| e2 != entity
                ==> final(self).comp_map(e2) == old(self).comp_map(e2),
            (!old(self).known(entity) && !old(self).lives(entity))
                ==> final(self).entities@ == old(self).entities@
                    && final(self).archetypes.archetypes@ == old(self).archetypes.archetypes@,
    {
        let ghost pre: World = *old(self);
        let n_e: usize = self.entities.len();
        let mut idx: Option<usize> = None;
        let mut k: usize = 0;
        while k < n_e
            invariant
                k <= n_e,
                n_e == self.entities@.len(),
                self == old(self),
                match idx {
                    None => forall|j: int| 0 <= j < k ==> self.entities@[j] != entity,
                    Some(x) => x < k && self.entities@[x as int] == entity,
                },
            decreases n_e - k,
        {
            if idx.is_none() && self.entities[k] == entity {
                idx = Some(k);
            }
            k = k + 1;
        }
        match idx {
            Some(x) => {
                let _ = self.entities.remove(x);
            },
            None => {},
        }
        let ghost ents_mid: Seq<Entity> = self.entities@;
        proof {
            assert(!ents_mid.contains(entity)) by {
                if ents_mid.contains(entity) {
                    let j = choose|j: int|
                        0 <= j < ents_mid.len() && ents_mid[j] == entity;
                    match idx {
                        Some(x) => {
                            if j < x as int {
                                assert(pre.entities@[j] == entity);
                                assert(pre.entities@[x as int] == entity);
                            } else {
                                assert(pre.entities@[j + 1] == entity);
                                assert(pre.entities@[x as int] == entity);
                            }
                        },
                        None => {
                            assert(pre.entities@[j] != entity);
                        },
                    }
                }
            }
            assert(distinct(ents_mid)) by {
                assert forall|a: int, b: int| 0 <= a < b < ents_mid.len()
                    implies ents_mid[a] != ents_mid[b] by {
                    match idx {
                        Some(x) => {
                            let a2: int = if a < x as int { a } else { a + 1 };
                            let b2: int = if b < x as int { b } else { b + 1 };
                            assert(ents_mid[a] == pre.entities@[a2]);
                            assert(ents_mid[b] == pre.entities@[b2]);
                        },
                        None => {},
                    }
                }
            }
            assert forall|e2: Entity| e2 != entity
                implies ents_mid.contains(e2) == pre.entities@.contains(e2) by {
                match idx {
                    Some(x) => {
                        if pre.entities@.contains(e2) {
                            let j = choose|j: int|
                                0 <= j < pre.entities@.len() && pre.entities@[j] == e2;
                            if j < x as int {
                                assert(ents_mid[j] == e2);
                            } else if j > x as int {
                                assert(ents_mid[j - 1] == e2);
                            } else {
                                assert(e2 == entity);
                            }
                        }
                        if ents_mid.contains(e2) {
                            let j = choose|j: int|
                                0 <= j < ents_mid.len() && ents_mid[j] == e2;
                            if j < x as int {
                                assert(pre.entities@[j] == e2);
                            } else {
                                assert(pre.entities@[j + 1] == e2);
                            }
                        }
                    },
                    None => {},
                }
            }
            assert forall|j: int| 0 <= j < ents_mid.len()
                implies (#[trigger] ents_mid[j]).0 < pre.next_entity by {
                match idx {
                    Some(x) => {
                        let j2: int = if j < x as int { j } else { j + 1 };
                        assert(ents_mid[j] == pre.entities@[j2]);
                    },
                    None => {},
                }
            }
            assert(pre.known(entity) ==> idx is Some) by {
                if pre.entities@.contains(entity) && idx is None {
                    let j = choose|j: int|
                        0 <= j < pre.entities@.len() && pre.entities@[j] == entity;
                    assert(pre.entities@[j] != entity);
                }
            }
        }
        let n: usize = self.archetypes.len();
        let mut i: usize = 0;
        while i < n
            invariant
                i <= n,
                n == self.archetypes.n(),
                self.archetypes.wf(),
                pre.wf(),
                n == pre.archetypes.n(),
                self.next_entity == pre.next_entity,
                self.entities@ == ents_mid,
                forall|j: int| i <= j < n
                    ==> #[trigger] self.archetypes.arch(j) == pre.archetypes.arch(j),
                forall|j: int|
                    0 <= j < i && !pre.archetypes.arch(j).contains_entity(entity)
                        ==> #[trigger] self.archetypes.arch(j) == pre.archetypes.arch(j),
                forall|j: int|
                    0 <= j < i && pre.archetypes.arch(j).contains_entity(entity)
                        ==> Archetype::removed_post(
                            pre.archetypes.arch(j),
                            #[trigger] self.archetypes.arch(j),
                            entity,
                        ),
                forall|j: int| 0 <= j < i
                    ==> !(#[trigger] self.archetypes.arch(j).contains_entity(entity)),
            decreases n - i,
        {
            let ghost before: ArchetypeSet = self.archetypes;
            self.archetypes.arch_destroy(i, entity);
            proof {
                let ii = i as int;
                assert(before.arch(ii) == pre.archetypes.arch(ii));
                if pre.archetypes.arch(ii).contains_entity(entity) {
                    lemma_removed_preserves_others(
                        pre.archetypes.arch(ii),
                        self.archetypes.arch(ii),
                        entity,
                    );
                } else {
                    assert(self.archetypes.archetypes@ == before.archetypes@);
                }
            }
            i = i + 1;
        }
        proof {
            let post = *final(self);
            assert(!post.lives(entity)) by {
                if post.lives(entity) {
                    let j = choose|j: int|
                        0 <= j < post.archetypes.n()
                            && (#[trigger] post.archetypes.arch(j)).contains_entity(entity);
                    assert(!post.archetypes.arch(j).contains_entity(entity));
                }
            }
            assert forall|j: int| 0 <= j < post.archetypes.n()
                implies (#[trigger] post.archetypes.arch(j)).contains_entity(entity)
                    == false
                    && (forall|e2: Entity| e2 != entity
                        ==> post.archetypes.arch(j).contains_entity(e2)
                            == pre.archetypes.arch(j).contains_entity(e2)) by {
                if pre.archetypes.arch(j).contains_entity(entity) {
                    lemma_removed_preserves_others(
                        pre.archetypes.arch(j),
                        post.archetypes.arch(j),
                        entity,
                    );
                }
            }
            assert forall|e2: Entity| e2 != entity
                implies post.lives(e2) == pre.lives(e2) by {
                if post.lives(e2) {
                    let j = choose|j: int|
                        0 <= j < post.archetypes.n()
                            && (#[trigger] post.archetypes.arch(j)).contains_entity(e2);
                    assert(pre.archetypes.arch(j).contains_entity(e2));
                }
                if pre.lives(e2) {
                    let j = choose|j: int|
                        0 <= j < pre.archetypes.n()
                            && (#[trigger] pre.archetypes.arch(j)).contains_entity(e2);
                    assert(post.archetypes.arch(j).contains_entity(e2));
                }
            }
            assert forall|e2: Entity| e2 != entity
                implies post.comp_map(e2) == pre.comp_map(e2) by {
                assert forall|j: int| 0 <= j < post.archetypes.n()
                    implies (#[trigger] post.archetypes.arch(j)).contains_entity(e2)
                        == pre.archetypes.arch(j).contains_entity(e2) by {
                    if pre.archetypes.arch(j).contains_entity(entity) {
                        lemma_removed_preserves_others(
                            pre.archetypes.arch(j),
                            post.archetypes.arch(j),
                            entity,
                        );
                    }
                }
                assert forall|j: int| 0 <= j < pre.archetypes.archetypes@.len()
                    implies (#[trigger] pre.archetypes.archetypes@[j]).contains_entity(e2)
                        == post.archetypes.archetypes@[j].contains_entity(e2) by {
                    assert(post.archetypes.arch(j).contains_entity(e2)
                        == pre.archetypes.arch(j).contains_entity(e2));
                }
                lemma_holder_equiv(
                    pre.archetypes.archetypes@,
                    post.archetypes.archetypes@,
                    e2,
                    0,
                );
                if pre.lives(e2) {
                    let h = pre.holder_of(e2);
                    lemma_find_holder_from(pre.archetypes.archetypes@, e2, 0);
                    let pa = pre.archetypes.arch(h);
                    let qa = post.archetypes.arch(h);
                    assert(qa.types@ == pa.types@);
                    if pa.contains_entity(entity) {
                        lemma_removed_preserves_others(pa, qa, entity);
                        assert forall|tid: u64| pa.has_tid(tid)
                            implies #[trigger] qa.comp_of(e2, tid) == pa.comp_of(e2, tid)
                        by {}
                    } else {
                        assert(qa == pa);
                    }
                    assert(post.comp_map(e2) =~= pre.comp_map(e2));
                } else {
                    assert(!post.lives(e2));
                }
            }
            assert forall|j: int, r: int|
                0 <= j < post.archetypes.n()
                    && 0 <= r < post.archetypes.arch(j).entities@.len()
                implies (#[trigger] post.archetypes.arch(j).entities@[r]).0
                    < post.next_entity by {
                let pa = pre.archetypes.arch(j);
                let qa = post.archetypes.arch(j);
                if pa.contains_entity(entity) {
                    let n2 = pa.entities@.len() as int;
                    let i2 = pa.row_of(entity);
                    lemma_find_from(pa.entities@, entity, 0);
                    if r == i2 {
                        assert(qa.entities@[r] == pa.entities@[n2 - 1]);
                        assert(pa.entities@[n2 - 1].0 < pre.next_entity);
                    } else {
                        assert(qa.entities@[r] == pa.entities@[r]);
                        assert(pa.entities@[r].0 < pre.next_entity);
                    }
                } else {
                    assert(qa == pa);
                    assert(pa.entities@[r].0 < pre.next_entity);
                }
            }
            if !pre.known(entity) && !pre.lives(entity) {
                assert(idx is None);
                assert(post.entities@ == pre.entities@);
                assert forall|j: int| 0 <= j < post.archetypes.n()
                    implies post.archetypes.archetypes@[j]
                        == pre.archetypes.archetypes@[j] by {
                    assert(!pre.archetypes.arch(j).contains_entity(entity)) by {
                        if pre.archetypes.arch(j).contains_entity(entity) {
                            assert(pre.lives(entity));
                        }
                    }
                    assert(post.archetypes.arch(j) == pre.archetypes.arch(j));
                }
                assert(post.archetypes.archetypes@ =~= pre.archetypes.archetypes@);
            }
        }
    }

    /// What holds in the middle of a migration, right after an entity's old
    /// row has been extracted (or when it had none): the entity occupies no
    /// row, every other entity and every type list is untouched, and the
    /// row about to be inserted — described by the parallel `infos` and
    /// `vals` lists — denotes exactly the component map `goal` that the
    /// entity is to end up with.
    pub open spec fn extracted_state(
        pre: World,
        mid: World,
        e: Entity,
        infos: Seq<TypeInfo>,
        vals: Seq<Vec<u8>>,
        goal: Map<u64, Seq<u8>>,
    ) -> bool {
        &&& mid.archetypes.wf()
        &&& mid.archetypes.n() == pre.archetypes.n()
        &&& mid.entities@ == pre.entities@
        &&& mid.next_entity == pre.next_entity
        &&& (forall|i: int| 0 <= i < mid.archetypes.n()
            ==> !(#[trigger] mid.archetypes.arch(i).contains_entity(e)))
        &&& (forall|i: int, e2: Entity|
            0 <= i < mid.archetypes.n() && e2 != e
                ==> #[trigger] mid.archetypes.arch(i).contains_entity(e2)
                    == pre.archetypes.arch(i).contains_entity(e2))
        &&& (forall|i: int| 0 <= i < mid.archetypes.n()
            ==> (#[trigger] mid.archetypes.arch(i)).types@ == pre.archetypes.arch(i).types@)
        &&& (forall|i: int, e2: Entity, tid: u64|
            0 <= i < mid.archetypes.n() && e2 != e
                && pre.archetypes.arch(i).contains_entity(e2)
                && pre.archetypes.arch(i).has_tid(tid)
                ==> #[trigger] mid.archetypes.arch(i).comp_of(e2, tid)
                    == pre.archetypes.arch(i).comp_of(e2, tid))
        &&& (forall|i: int, r: int|
            0 <= i < mid.archetypes.n()
                && 0 <= r < mid.archetypes.arch(i).entities@.len()
                ==> (#[trigger] mid.archetypes.arch(i).entities@[r]).0 < pre.next_entity)
        &&& vals.len() == infos.len()
        &&& distinct(ids_of(infos))
        &&& (forall|k: int| 0 <= k < vals.len()
            ==> (#[trigger] vals[k])@.len() == infos[k].size)
        &&& bundle_map(infos, byte_rows(vals)) == goal
        &&& (forall|tid: u64| ids_of(infos).contains(tid) == goal.dom().contains(tid))
        &&& (forall|i: int, c: int, k: int|
            0 <= i < mid.archetypes.n()
                && 0 <= c < mid.archetypes.arch(i).types@.len() && 0 <= k < infos.len()
                && (#[trigger] mid.archetypes.arch(i).types@[c]).id
                    == (#[trigger] infos[k]).id
                ==> mid.archetypes.arch(i).types@[c].size == infos[k].size)
    }

    /// Adds a bundle's components to an entity. If the entity already holds
    /// a row, that row is migrated: its records are moved out, concatenated
    /// with the bundle's, and inserted into the archetype keyed by the
    /// united type set, which is created on first need. The extracted row
    /// is not dropped before the receiving archetype exists.
    pub fn add(&mut self, entity: Entity, bundle: Bundle)
        requires
            old(self).wf(),
            bundle.wf(),
            entity.0 < old(self).next_entity,
            old(self).next_entity < (usize::MAX / 2) as u64,
            old(self).archetypes.compat_infos(bundle.infos@),
            forall|k: int| 0 <= k < bundle.ids().len()
                ==> !old(self).comp_map(entity).dom().contains(#[trigger] bundle.ids()[k]),
        ensures
            final(self).wf(),
            final(self).next_entity == old(self).next_entity,
            final(self).entities@ == old(self).entities@,
            final(self).lives(entity),
            final(self).comp_map(entity) == old(self).comp_map(entity).union_prefer_right(
                bundle.map(),
            ),
            forall|e2: Entity| e2 != entity
                ==> final(self).lives(e2) == old(self).lives(e2),
            forall|e2: Entity| e2 != entity
                ==> final(self).comp_map(e2) == old(self).comp_map(e2),
    {
        let ghost pre: World = *old(self);
        let ghost bm: Map<u64, Seq<u8>> = bundle.map();
        let ghost b_infos: Seq<TypeInfo> = bundle.infos@;
        let ghost b_vals: Seq<Vec<u8>> = bundle.values@;
        let mut infos: Vec<TypeInfo>;
        let mut vals: Vec<Vec<u8>>;
        match self.archetypes.get_by_entity_index(entity) {
            Some(s) => {
                proof {
                    assert(self.archetypes.arch(s as int).wf());
                }
                let src_types = clone_infos(&self.archetypes.at(s).types);
                let extracted = match self.archetypes.arch_remove_whole(s, entity) {
                    Some(x) => x,
                    None => {
                        proof {
                            assert(false);
                        }
                        Vec::new()
                    },
                };
                infos = src_types;
                vals = extracted;
                proof {
                    let ss = s as int;
                    let pa = pre.archetypes.arch(ss);
                    let qa = self.archetypes.arch(ss);
                    lemma_comp_map_as_bundle_map(pre, entity);
                    lemma_removed_preserves_others(pa, qa, entity);
                    lemma_find_from(pa.entities@, entity, 0);
                    assert(World::extracted_state(
                        pre, *self, entity, infos@, vals@, pre.comp_map(entity),
                    )) by {
                        assert forall|i: int| 0 <= i < self.archetypes.n()
                            implies !(#[trigger] self.archetypes.arch(i).contains_entity(
                            entity,
                        )) by {
                            if i != ss {
                                assert(self.archetypes.arch(i) == pre.archetypes.arch(i));
                                assert(!pre.archetypes.arch(i).contains_entity(entity));
                            }
                        }
                        assert forall|i: int, e2: Entity|
                            0 <= i < self.archetypes.n() && e2 != entity
                            implies #[trigger] self.archetypes.arch(i).contains_entity(e2)
                                == pre.archetypes.arch(i).contains_entity(e2) by {
                            if i != ss {
                                assert(self.archetypes.arch(i) == pre.archetypes.arch(i));
                            }
                        }
                        assert forall|i: int| 0 <= i < self.archetypes.n()
                            implies (#[trigger] self.archetypes.arch(i)).types@
                                == pre.archetypes.arch(i).types@ by {
                            if i != ss {
                                assert(self.archetypes.arch(i) == pre.archetypes.arch(i));
                            }
                        }
                        assert forall|i: int, r: int|
                            0 <= i < self.archetypes.n()
                                && 0 <= r < self.archetypes.arch(i).entities@.len()
                            implies (#[trigger] self.archetypes.arch(i).entities@[r]).0
                                < pre.next_entity by {
                            if i != ss {
                                assert(self.archetypes.arch(i) == pre.archetypes.arch(i));
                                assert(pre.archetypes.arch(i).entities@[r].0
                                    < pre.next_entity);
                            } else {
                                let n2 = pa.entities@.len() as int;
                                let i2 = pa.row_of(entity);
                                if r == i2 {
                                    assert(qa.entities@[r] == pa.entities@[n2 - 1]);
                                    assert(pa.entities@[n2 - 1].0 < pre.next_entity);
                                } else {
                                    assert(qa.entities@[r] == pa.entities@[r]);
                                    assert(pa.entities@[r].0 < pre.next_entity);
                                }
                            }
                        }
                        assert forall|i: int, e2: Entity, tid: u64|
                            0 <= i < self.archetypes.n() && e2 != entity
                                && pre.archetypes.arch(i).contains_entity(e2)
                                && pre.archetypes.arch(i).has_tid(tid)
                            implies #[trigger] self.archetypes.arch(i).comp_of(e2, tid)
                                == pre.archetypes.arch(i).comp_of(e2, tid) by {
                            if i != ss {
                                assert(self.archetypes.arch(i) == pre.archetypes.arch(i));
                            }
                        }
                        assert(infos@ == pa.types@);
                        assert(byte_rows(vals@) == pa.row_snapshot(pa.row_of(entity)));
                        assert(byte_rows(vals@).len() == vals@.len());
                        assert(pa.row_snapshot(pa.row_of(entity)).len() == pa.types@.len());
                        assert(vals@.len() == infos@.len());
                        assert forall|k: int| 0 <= k < vals@.len()
                            implies (#[trigger] vals@[k])@.len() == infos@[k].size by {
                            assert(byte_rows(vals@)[k] == pa.comp(k, pa.row_of(entity)));
                        }
                        assert(bundle_map(infos@, byte_rows(vals@)) == pre.comp_map(entity));
                        assert forall|tid: u64|
                            ids_of(infos@).contains(tid)
                                == pre.comp_map(entity).dom().contains(tid) by {
                            assert(ids_of(infos@) == pa.ids());
                        }
                        assert forall|i: int, c: int, k: int|
                            0 <= i < self.archetypes.n()
                                && 0 <= c < self.archetypes.arch(i).types@.len()
                                && 0 <= k < infos@.len()
                                && (#[trigger] self.archetypes.arch(i).types@[c]).id
                                    == (#[trigger] infos@[k]).id
                            implies self.archetypes.arch(i).types@[c].size
                                == infos@[k].size by {
                            assert(self.archetypes.arch(i).types@
                                == pre.archetypes.arch(i).types@);
                            assert(infos@[k] == pre.archetypes.arch(ss).types@[k]);
                            assert(pre.archetypes.arch(i).types@[c].size
                                == pre.archetypes.arch(ss).types@[k].size);
                        }
                    }
                }
            },
            None => {
                infos = Vec::new();
                vals = Vec::new();
                proof {
                    assert(World::extracted_state(
                        pre, *self, entity, infos@, vals@, pre.comp_map(entity),
                    )) by {
                        assert(*self == pre);
                        assert(!pre.lives(entity));
                        assert forall|i: int| 0 <= i < self.archetypes.n()
                            implies !(#[trigger] self.archetypes.arch(i).contains_entity(
                            entity,
                        )) by {
                            if self.archetypes.arch(i).contains_entity(entity) {
                                assert(pre.lives(entity));
                            }
                        }
                        assert(ids_of(infos@).len() == 0);
                        assert(bundle_map(infos@, byte_rows(vals@)) =~= Map::<u64, Seq<u8>>::empty());
                    }
                }
            },
        }
        let ghost mid: World = *self;
        let ghost src_infos: Seq<TypeInfo> = infos@;
        let ghost src_vals: Seq<Vec<u8>> = vals@;
        let mut bundle = bundle;
        infos.append(&mut bundle.infos);
        vals.append(&mut bundle.values);
        let ghost goal: Map<u64, Seq<u8>> = pre.comp_map(entity).union_prefer_right(bm);
        proof {
            assert(World::extracted_state(
                pre, mid, entity, src_infos, src_vals, pre.comp_map(entity),
            ));
            assert(infos@ == src_infos + b_infos);
            assert(vals@ == src_vals + b_vals);
            assert(ids_of(infos@) =~= ids_of(src_infos) + ids_of(b_infos));
            assert forall|tid: u64|
                !(ids_of(src_infos).contains(tid) && ids_of(b_infos).contains(tid)) by {
                if ids_of(b_infos).contains(tid) {
                    let k = choose|k: int|
                        0 <= k < ids_of(b_infos).len() && ids_of(b_infos)[k] == tid;
                    assert(!pre.comp_map(entity).dom().contains(ids_of(b_infos)[k]));
                }
            }
            assert(distinct(ids_of(infos@))) by {
                assert forall|x: int, y: int| 0 <= x < y < ids_of(infos@).len()
                    implies ids_of(infos@)[x] != ids_of(infos@)[y] by {
                    let n1 = ids_of(src_infos).len() as int;
                    if y < n1 {
                        assert(ids_of(src_infos)[x] != ids_of(src_infos)[y]);
                    } else if x >= n1 {
                        assert(ids_of(b_infos)[x - n1] != ids_of(b_infos)[y - n1]);
                    } else {
                        assert(ids_of(infos@)[x] == ids_of(src_infos)[x]);
                        assert(ids_of(infos@)[y] == ids_of(b_infos)[y - n1]);
                        assert(ids_of(src_infos).contains(ids_of(src_infos)[x]));
                        assert(ids_of(b_infos).contains(ids_of(b_infos)[y - n1]));
                    }
                }
            }
            assert(byte_rows(vals@) =~= byte_rows(src_vals) + byte_rows(b_vals));
            lemma_bundle_map_concat(src_infos, byte_rows(src_vals), b_infos, byte_rows(b_vals));
            assert(bundle_map(infos@, byte_rows(vals@)) == pre.comp_map(entity)
                .union_prefer_right(bm));
            assert forall|k: int| 0 <= k < vals@.len()
                implies (#[trigger] vals@[k])@.len() == infos@[k].size by {
                let n1 = src_vals.len() as int;
                if k < n1 {
                    assert(src_vals[k]@.len() == src_infos[k].size);
                } else {
                    assert(vals@[k] == b_vals[k - n1]);
                    assert(infos@[k] == b_infos[k - n1]);
                    assert(b_vals[k - n1]@.len() == b_infos[k - n1].size);
                }
            }
            assert forall|i: int, c: int, k: int|
                0 <= i < mid.archetypes.n()
                    && 0 <= c < mid.archetypes.arch(i).types@.len()
                    && 0 <= k < infos@.len()
                    && (#[trigger] mid.archetypes.arch(i).types@[c]).id
                        == (#[trigger] infos@[k]).id
                implies mid.archetypes.arch(i).types@[c].size == infos@[k].size by {
                let n1 = src_infos.len() as int;
                assert(mid.archetypes.arch(i).types@ == pre.archetypes.arch(i).types@);
                if k < n1 {
                    assert(infos@[k] == src_infos[k]);
                } else {
                    assert(infos@[k] == b_infos[k - n1]);
                    assert(pre.archetypes.arch(i).types@[c].size == b_infos[k - n1].size);
                }
            }
        }
        self.place_row(entity, infos, vals, Ghost(pre), Ghost(goal));
    }


    /// Inserts a row for an entity that occupies no row anywhere: finds or
    /// creates the archetype keyed by the row's type set, reorders the row
    /// into that archetype's column order, and adds it.
    fn place_row(
        &mut self,
        entity: Entity,
        infos: Vec<TypeInfo>,
        vals: Vec<Vec<u8>>,
        Ghost(pre): Ghost<World>,
        Ghost(goal): Ghost<Map<u64, Seq<u8>>>,
    )
        requires
            pre.wf(),
            World::extracted_state(pre, *old(self), entity, infos@, vals@, goal),
            entity.0 < pre.next_entity,
            pre.next_entity < (usize::MAX / 2) as u64,
        ensures
            final(self).wf(),
            final(self).next_entity == pre.next_entity,
            final(self).entities@ == pre.entities@,
            final(self).lives(entity),
            final(self).comp_map(entity) == goal,
            forall|e2: Entity| e2 != entity ==> final(self).lives(e2) == pre.lives(e2),
            forall|e2: Entity| e2 != entity ==> final(self).comp_map(e2) == pre.comp_map(e2),
    {
        let ghost mid: World = *old(self);
        let tids = ids_vec(&infos);
        let t: usize = match self.archetypes.get_index(&tids) {
            Some(t) => t,
            None => {
                self.archetypes.add(clone_infos(&infos));
                self.archetypes.len() - 1
            },
        };
        let ghost mid2: World = *self;
        proof {
            let tt = t as int;
            assert(same_ids(mid2.archetypes.arch(tt).ids(), ids_of(infos@))) by {
                if mid2.archetypes.n() == mid.archetypes.n() {
                } else {
                    assert(mid2.archetypes.arch(tt).types@ == infos@);
                }
            }
            assert(mid2.archetypes.n() >= mid.archetypes.n());
            assert forall|i: int| 0 <= i < mid.archetypes.n()
                implies #[trigger] mid2.archetypes.arch(i) == mid.archetypes.arch(i) by {}
            assert forall|i: int| 0 <= i < mid2.archetypes.n()
                implies !(#[trigger] mid2.archetypes.arch(i).contains_entity(entity)) by {
                if i < mid.archetypes.n() {
                    assert(mid2.archetypes.arch(i) == mid.archetypes.arch(i));
                } else {
                    assert(mid2.archetypes.arch(i).entities@.len() == 0);
                }
            }
            // size agreement between the target's column order and the
            // combined row order
            assert forall|c: int, k: int|
                0 <= c < mid2.archetypes.arch(tt).types@.len() && 0 <= k < infos@.len()
                    && (#[trigger] mid2.archetypes.arch(tt).types@[c]).id
                        == (#[trigger] infos@[k]).id
                implies mid2.archetypes.arch(tt).types@[c].size == infos@[k].size by {
                if tt < mid.archetypes.n() {
                    assert(mid2.archetypes.arch(tt) == mid.archetypes.arch(tt));
                } else {
                    assert(mid2.archetypes.arch(tt).types@ == infos@);
                    assert(ids_of(infos@)[c] == ids_of(infos@)[k]);
                    if c != k {
                        assert(false);
                    }
                }
            }
            // room for one more row in the target
            assert(mid2.archetypes.arch(tt).entities@.len() < usize::MAX / 2) by {
                assert forall|r: int|
                    0 <= r < mid2.archetypes.arch(tt).entities@.len()
                    implies (#[trigger] mid2.archetypes.arch(tt).entities@[r]).0
                        < pre.next_entity by {
                    if tt < mid.archetypes.n() {
                        assert(mid2.archetypes.arch(tt) == mid.archetypes.arch(tt));
                    } else {
                        assert(mid2.archetypes.arch(tt).entities@.len() == 0);
                    }
                }
                assert(mid2.archetypes.arch(tt).wf());
                lemma_rows_bounded(mid2.archetypes.arch(tt), pre.next_entity);
            }
        }
        let target_types = clone_infos(&self.archetypes.at(t).types);
        let row = align_row(&target_types, &infos, &vals);
        self.archetypes.arch_add(t, entity, row);
        proof {
            let tt = t as int;
            let post = *final(self);
            let ta_pre = mid2.archetypes.arch(tt);
            let ta = post.archetypes.arch(tt);
            let new_row = ta_pre.entities@.len() as int;
            lemma_add_preserves_others(ta_pre, ta, entity, byte_rows(row@));
            // the world stays well formed
            assert forall|i: int, r: int|
                0 <= i < post.archetypes.n()
                    && 0 <= r < post.archetypes.arch(i).entities@.len()
                implies (#[trigger] post.archetypes.arch(i).entities@[r]).0
                    < post.next_entity by {
                if i == tt {
                    if r == new_row {
                        assert(ta.entities@[r] == entity);
                    } else {
                        assert(ta.entities@[r] == ta_pre.entities@[r]);
                        if i < mid.archetypes.n() {
                            assert(ta_pre == mid.archetypes.arch(i));
                        } else {
                            assert(ta_pre.entities@.len() == 0);
                        }
                    }
                } else {
                    assert(post.archetypes.arch(i) == mid2.archetypes.arch(i));
                    if i < mid.archetypes.n() {
                        assert(mid2.archetypes.arch(i) == mid.archetypes.arch(i));
                    } else {
                        assert(mid2.archetypes.arch(i).entities@.len() == 0);
                    }
                }
            }
            // the entity now lives exactly in the target archetype
            assert(post.lives(entity)) by {
                assert(ta.contains_entity(entity));
            }
            assert(post.holder_of(entity) == tt) by {
                lemma_find_holder_from(post.archetypes.archetypes@, entity, 0);
                assert(find_holder_from(post.archetypes.archetypes@, entity, 0) != -1) by {
                    if find_holder_from(post.archetypes.archetypes@, entity, 0) == -1 {
                        assert(!post.archetypes.archetypes@[tt].contains_entity(entity));
                    }
                }
                let h = find_holder_from(post.archetypes.archetypes@, entity, 0);
                if h != tt {
                    assert(post.archetypes.arch(h).contains_entity(entity));
                    assert(!mid2.archetypes.arch(h).contains_entity(entity));
                    assert(post.archetypes.arch(h) == mid2.archetypes.arch(h));
                }
            }
            // its component map is the combined row's map
            assert(ta.entities@[new_row] == entity);
            assert(distinct(ta.entities@));
            lemma_find_unique(ta.entities@, entity, new_row);
            assert(post.comp_map(entity) == goal) by {
                assert forall|tid: u64| #[trigger] ta.has_tid(tid)
                    implies goal.dom().contains(tid) && ta.comp_of(entity, tid)
                        == goal[tid] by {
                    assert(ta.ids().contains(tid));
                    assert(ids_of(infos@).contains(tid));
                    lemma_find_from(ta.ids(), tid, 0);
                    let c = ta.col_of(tid);
                    assert(ta.types@[c].id == tid);
                    assert(ta.comp(c, new_row) == byte_rows(row@)[c]);
                    assert(byte_rows(row@)[c] == goal[ta_pre.types@[c].id]);
                }
                assert forall|tid: u64| #[trigger] goal.dom().contains(tid)
                    implies ta.has_tid(tid) by {
                    assert(ids_of(infos@).contains(tid));
                }
                assert(post.comp_map(entity) =~= goal);
            }
            // other entities keep their rows everywhere
            assert forall|i: int, e2: Entity|
                0 <= i < post.archetypes.n() && e2 != entity
                implies #[trigger] post.archetypes.arch(i).contains_entity(e2)
                    == (i < pre.archetypes.n() && pre.archetypes.arch(i).contains_entity(
                    e2,
                )) by {
                if i == tt {
                    assert(ta.contains_entity(e2) == ta_pre.contains_entity(e2));
                } else {
                    assert(post.archetypes.arch(i) == mid2.archetypes.arch(i));
                }
                if i < mid.archetypes.n() {
                    assert(mid2.archetypes.arch(i) == mid.archetypes.arch(i));
                    assert(mid.archetypes.arch(i).contains_entity(e2)
                        == pre.archetypes.arch(i).contains_entity(e2));
                } else {
                    assert(mid2.archetypes.arch(i).entities@.len() == 0);
                }
            }
            assert forall|e2: Entity| e2 != entity
                implies post.lives(e2) == pre.lives(e2) by {
                if post.lives(e2) {
                    let j = choose|j: int|
                        0 <= j < post.archetypes.n()
                            && (#[trigger] post.archetypes.arch(j)).contains_entity(e2);
                    assert(pre.archetypes.arch(j).contains_entity(e2));
                }
                if pre.lives(e2) {
                    let j = choose|j: int|
                        0 <= j < pre.archetypes.n()
                            && (#[trigger] pre.archetypes.arch(j)).contains_entity(e2);
                    assert(post.archetypes.arch(j).contains_entity(e2));
                }
            }
            assert forall|e2: Entity| e2 != entity
                implies post.comp_map(e2) == pre.comp_map(e2) by {
                assert forall|j: int| 0 <= j < pre.archetypes.archetypes@.len()
                    implies (#[trigger] pre.archetypes.archetypes@[j]).contains_entity(e2)
                        == post.archetypes.archetypes@[j].contains_entity(e2) by {
                    assert(post.archetypes.arch(j).contains_entity(e2)
                        == pre.archetypes.arch(j).contains_entity(e2));
                }
                assert forall|j: int|
                    pre.archetypes.archetypes@.len() <= j
                        < post.archetypes.archetypes@.len()
                    implies !(#[trigger] post.archetypes.archetypes@[j]).contains_entity(
                        e2,
                    ) by {
                    assert(post.archetypes.arch(j).contains_entity(e2)
                        == pre.archetypes.arch(j).contains_entity(e2) || true);
                    if post.archetypes.arch(j).contains_entity(e2) {
                        assert(j < pre.archetypes.n());
                    }
                }
                lemma_holder_extend(
                    pre.archetypes.archetypes@,
                    post.archetypes.archetypes@,
                    e2,
                    0,
                );
                if pre.lives(e2) {
                    let h = pre.holder_of(e2);
                    lemma_find_holder_from(pre.archetypes.archetypes@, e2, 0);
                    let pa2 = pre.archetypes.arch(h);
                    let qa2 = post.archetypes.arch(h);
                    assert(qa2.types@ == pa2.types@) by {
                        if h == tt {
                            assert(ta.types@ == ta_pre.types@);
                            assert(mid2.archetypes.arch(h) == mid.archetypes.arch(h));
                        } else {
                            assert(qa2 == mid2.archetypes.arch(h));
                            assert(mid2.archetypes.arch(h) == mid.archetypes.arch(h));
                        }
                    }
                    assert forall|tid: u64|
                        pa2.contains_entity(e2) && #[trigger] pa2.has_tid(tid)
                        implies qa2.comp_of(e2, tid) == pa2.comp_of(e2, tid) by {
                        let ma = mid.archetypes.arch(h);
                        assert(ma.comp_of(e2, tid) == pa2.comp_of(e2, tid));
                        assert(mid2.archetypes.arch(h) == ma);
                        if h == tt {
                            assert(ma.contains_entity(e2));
                            assert(ma.has_tid(tid));
                        } else {
                            assert(qa2 == ma);
                        }
                    }
                    assert(post.comp_map(e2) =~= pre.comp_map(e2));
                } else {
                    assert(!post.lives(e2));
                }
            }
        }
    }

    /// Removes the listed component types from an entity: the records of
    /// every other type are moved out of the old row, and the entity
    /// migrates to the archetype keyed by the remainder type set, created
    /// on first need. Returns `None`, without effect, if the entity holds
    /// no row.
    pub fn remove(&mut self, entity: Entity, type_ids: &Vec<u64>) -> (r: Option<()>)
        requires
            old(self).wf(),
            old(self).next_entity < (usize::MAX / 2) as u64,
        ensures
            final(self).wf(),
            final(self).next_entity == old(self).next_entity,
            final(self).entities@ == old(self).entities@,
            (r is Some) == old(self).lives(entity),
            r is None ==> *final(self) == *old(self),
            r is Some ==> final(self).lives(entity) && final(self).comp_map(entity)
                == old(self).comp_map(entity).remove_keys(type_ids@.to_set()),
            forall|e2: Entity| e2 != entity
                ==> final(self).lives(e2) == old(self).lives(e2),
            forall|e2: Entity| e2 != entity
                ==> final(self).comp_map(e2) == old(self).comp_map(e2),
    {
        let ghost pre: World = *old(self);
        let s: usize = match self.archetypes.get_by_entity_index(entity) {
            None => {
                return None;
            },
            Some(s) => s,
        };
        proof {
            assert(self.archetypes.arch(s as int).wf());
        }
        let src_types = clone_infos(&self.archetypes.at(s).types);
        let infos = filter_retained(&src_types, type_ids);
        let vals = match self.archetypes.arch_remove(s, entity, type_ids) {
            Some(x) => x,
            None => {
                proof {
                    assert(false);
                }
                Vec::new()
            },
        };
        let ghost goal: Map<u64, Seq<u8>> = pre.comp_map(entity).remove_keys(
            type_ids@.to_set(),
        );
        proof {
            let ss = s as int;
            let pa = pre.archetypes.arch(ss);
            let qa = self.archetypes.arch(ss);
            let row0 = pa.row_snapshot(pa.row_of(entity));
            lemma_comp_map_as_bundle_map(pre, entity);
            lemma_removed_preserves_others(pa, qa, entity);
            lemma_find_from(pa.entities@, entity, 0);
            lemma_retained_map(pa.types@, row0, type_ids@);
            crate::bundle::lemma_retained_elems(pa.types@, row0, type_ids@, 0);
            assert(World::extracted_state(pre, *self, entity, infos@, vals@, goal)) by {
                assert forall|i: int| 0 <= i < self.archetypes.n()
                    implies !(#[trigger] self.archetypes.arch(i).contains_entity(
                    entity,
                )) by {
                    if i != ss {
                        assert(self.archetypes.arch(i) == pre.archetypes.arch(i));
                        assert(!pre.archetypes.arch(i).contains_entity(entity));
                    }
                }
                assert forall|i: int, e2: Entity|
                    0 <= i < self.archetypes.n() && e2 != entity
                    implies #[trigger] self.archetypes.arch(i).contains_entity(e2)
                        == pre.archetypes.arch(i).contains_entity(e2) by {
                    if i != ss {
                        assert(self.archetypes.arch(i) == pre.archetypes.arch(i));
                    }
                }
                assert forall|i: int| 0 <= i < self.archetypes.n()
                    implies (#[trigger] self.archetypes.arch(i)).types@
                        == pre.archetypes.arch(i).types@ by {
                    if i != ss {
                        assert(self.archetypes.arch(i) == pre.archetypes.arch(i));
                    }
                }
                assert forall|i: int, e2: Entity, tid: u64|
                    0 <= i < self.archetypes.n() && e2 != entity
                        && pre.archetypes.arch(i).contains_entity(e2)
                        && pre.archetypes.arch(i).has_tid(tid)
                    implies #[trigger] self.archetypes.arch(i).comp_of(e2, tid)
                        == pre.archetypes.arch(i).comp_of(e2, tid) by {
                    if i != ss {
                        assert(self.archetypes.arch(i) == pre.archetypes.arch(i));
                    }
                }
                assert forall|i: int, r2: int|
                    0 <= i < self.archetypes.n()
                        && 0 <= r2 < self.archetypes.arch(i).entities@.len()
                    implies (#[trigger] self.archetypes.arch(i).entities@[r2]).0
                        < pre.next_entity by {
                    if i != ss {
                        assert(self.archetypes.arch(i) == pre.archetypes.arch(i));
                        assert(pre.archetypes.arch(i).entities@[r2].0 < pre.next_entity);
                    } else {
                        let n2 = pa.entities@.len() as int;
                        let i2 = pa.row_of(entity);
                        if r2 == i2 {
                            assert(qa.entities@[r2] == pa.entities@[n2 - 1]);
                            assert(pa.entities@[n2 - 1].0 < pre.next_entity);
                        } else {
                            assert(qa.entities@[r2] == pa.entities@[r2]);
                            assert(pa.entities@[r2].0 < pre.next_entity);
                        }
                    }
                }
                assert(infos@ == retained_infos_from(pa.types@, type_ids@, 0));
                assert(byte_rows(vals@) == retained_vals_from(pa.types@, row0, type_ids@, 0));
                assert(byte_rows(vals@).len() == vals@.len());
                assert(vals@.len() == infos@.len());
                assert(bundle_map(infos@, byte_rows(vals@)) == goal);
                assert forall|k: int| 0 <= k < vals@.len()
                    implies (#[trigger] vals@[k])@.len() == infos@[k].size by {
                    let j = choose|j: int|
                        0 <= j < pa.types@.len()
                            && #[trigger] retained_infos_from(pa.types@, type_ids@, 0)[k]
                                == pa.types@[j]
                            && retained_vals_from(pa.types@, row0, type_ids@, 0)[k]
                                == row0[j] && !type_ids@.contains(pa.types@[j].id);
                    assert(row0[j] == pa.comp(j, pa.row_of(entity)));
                    assert(vals@[k]@ == row0[j]);
                    assert(infos@[k] == pa.types@[j]);
                }
                assert forall|tid: u64|
                    ids_of(infos@).contains(tid) == goal.dom().contains(tid) by {
                    assert(bundle_map(infos@, byte_rows(vals@)).dom().contains(tid)
                        == ids_of(infos@).contains(tid));
                }
                assert forall|i: int, c: int, k: int|
                    0 <= i < self.archetypes.n()
                        && 0 <= c < self.archetypes.arch(i).types@.len()
                        && 0 <= k < infos@.len()
                        && (#[trigger] self.archetypes.arch(i).types@[c]).id
                            == (#[trigger] infos@[k]).id
                    implies self.archetypes.arch(i).types@[c].size == infos@[k].size by {
                    let j = choose|j: int|
                        0 <= j < pa.types@.len()
                            && #[trigger] retained_infos_from(pa.types@, type_ids@, 0)[k]
                                == pa.types@[j]
                            && retained_vals_from(pa.types@, row0, type_ids@, 0)[k]
                                == row0[j] && !type_ids@.contains(pa.types@[j].id);
                    assert(infos@[k] == pa.types@[j]);
                    assert(self.archetypes.arch(i).types@ == pre.archetypes.arch(i).types@);
                    assert(pre.archetypes.arch(i).types@[c].size == pa.types@[j].size);
                }
            }
        }
        self.place_row(entity, infos, vals, Ghost(pre), Ghost(goal));
        Some(())
    }

    /// Overwrites, in place, the records an entity holds for every type in
    /// the bundle. This is the writable view of an existing row: no
    /// migration happens. Returns false, without effect, if the entity
    /// holds no row or its archetype lacks one of the bundle's types.
    pub fn set(&mut self, entity: Entity, bundle: Bundle) -> (r: bool)
        requires
            old(self).wf(),
            bundle.wf(),
            old(self).archetypes.compat_infos(bundle.infos@),
        ensures
            final(self).wf(),
            final(self).next_entity == old(self).next_entity,
            final(self).entities@ == old(self).entities@,
            r == (old(self).lives(entity) && forall|k: int|
                0 <= k < bundle.ids().len()
                    ==> old(self).comp_map(entity).dom().contains(#[trigger] bundle.ids()[k])),
            r ==> final(self).comp_map(entity) == old(self).comp_map(entity)
                .union_prefer_right(bundle.map()),
            !r ==> *final(self) == *old(self),
            forall|e2: Entity| final(self).lives(e2) == old(self).lives(e2),
            forall|e2: Entity| e2 != entity
                ==> final(self).comp_map(e2) == old(self).comp_map(e2),
    {
        let ghost pre: World = *old(self);
        let tids = bundle.type_ids();
        let s: usize = match self.archetypes.get_by_entity_index(entity) {
            None => {
                return false;
            },
            Some(s) => s,
        };
        proof {
            assert(self.archetypes.arch(s as int).wf());
            lemma_comp_map_as_bundle_map(pre, entity);
        }
        if !self.archetypes.at(s).is_superset(&tids) {
            proof {
                let k = choose|k: int|
                    0 <= k < tids@.len()
                        && !pre.archetypes.arch(s as int).has_tid(tids@[k]);
                assert(!pre.comp_map(entity).dom().contains(bundle.ids()[k]));
            }
            return false;
        }
        let row: usize = match self.archetypes.at(s).find_row(entity) {
            Some(row) => row,
            None => {
                proof {
                    assert(false);
                }
                0
            },
        };
        proof {
            let ss = s as int;
            let pa = pre.archetypes.arch(ss);
            assert forall|k: int| 0 <= k < bundle.values@.len()
                implies (#[trigger] bundle.values@[k])@.len()
                    == pa.types@[pa.col_of(tids@[k])].size by {
                lemma_find_from(pa.ids(), tids@[k], 0);
                let c = pa.col_of(tids@[k]);
                assert(pa.types@[c].id == tids@[k]);
                assert(bundle.infos@[k].id == tids@[k]);
                assert(pa.types@[c].size == bundle.infos@[k].size);
            }
            assert forall|k: int| 0 <= k < bundle.ids().len()
                implies pre.comp_map(entity).dom().contains(
                    #[trigger] bundle.ids()[k]) by {
                assert(pa.has_tid(tids@[k]));
            }
        }
        let ghost b_infos: Seq<TypeInfo> = bundle.infos@;
        let ghost b_vals: Seq<Vec<u8>> = bundle.values@;
        let values = bundle.values;
        self.archetypes.arch_set_components(s, row, &tids, values);
        proof {
            let ss = s as int;
            let pa = pre.archetypes.arch(ss);
            let qa = self.archetypes.arch(ss);
            let post = *final(self);
            assert forall|i: int| 0 <= i < post.archetypes.n()
                implies (#[trigger] post.archetypes.arch(i)).entities@
                    == pre.archetypes.arch(i).entities@
                    && post.archetypes.arch(i).types@ == pre.archetypes.arch(i).types@ by {
                if i != ss {
                    assert(post.archetypes.arch(i) == pre.archetypes.arch(i));
                }
            }
            assert forall|e2: Entity| post.lives(e2) == pre.lives(e2) by {
                if post.lives(e2) {
                    let j = choose|j: int|
                        0 <= j < post.archetypes.n()
                            && (#[trigger] post.archetypes.arch(j)).contains_entity(e2);
                    assert(pre.archetypes.arch(j).entities@
                        == post.archetypes.arch(j).entities@);
                    assert(pre.archetypes.arch(j).contains_entity(e2));
                }
                if pre.lives(e2) {
                    let j = choose|j: int|
                        0 <= j < pre.archetypes.n()
                            && (#[trigger] pre.archetypes.arch(j)).contains_entity(e2);
                    assert(post.archetypes.arch(j).contains_entity(e2));
                }
            }
            assert forall|j: int| 0 <= j < pre.archetypes.archetypes@.len()
                implies (#[trigger] pre.archetypes.archetypes@[j]).contains_entity(
                    entity,
                ) == post.archetypes.archetypes@[j].contains_entity(entity) by {
                assert(pre.archetypes.arch(j).entities@ == post.archetypes.arch(j).entities@);
            }
            lemma_holder_equiv(
                pre.archetypes.archetypes@,
                post.archetypes.archetypes@,
                entity,
                0,
            );
            lemma_find_holder_from(pre.archetypes.archetypes@, entity, 0);
            assert(pre.holder_of(entity) == ss) by {
                let h = pre.holder_of(entity);
                assert(h != -1) by {
                    if h == -1 {
                        assert(!pre.archetypes.archetypes@[ss].contains_entity(entity));
                    }
                }
                if h != ss {
                    assert(pre.archetypes.arch(h).contains_entity(entity));
                    assert(pre.archetypes.arch(ss).contains_entity(entity));
                }
            }
            assert(row as int == pa.row_of(entity));
            // the entity's map gains exactly the bundle's records
            assert(post.comp_map(entity) == pre.comp_map(entity).union_prefer_right(
                bundle.map(),
            )) by {
                assert(post.holder_of(entity) == ss);
                assert forall|tid: u64| #[trigger] qa.has_tid(tid)
                    implies qa.comp_of(entity, tid) == pre.comp_map(entity)
                        .union_prefer_right(bundle.map())[tid] by {
                    lemma_find_from(qa.ids(), tid, 0);
                    let c = qa.col_of(tid);
                    assert(qa.types@[c].id == tid);
                    if ids_of(b_infos).contains(tid) {
                        lemma_find_from(ids_of(b_infos), tid, 0);
                        let k = find_from(ids_of(b_infos), tid, 0);
                        assert(b_infos[k].id == tid);
                        assert(tids@[k] == tid);
                        assert(pa.col_of(tids@[k]) == c);
                        assert(qa.comp(pa.col_of(tids@[k]), row as int)
                            == b_vals[k]@);
                        assert(bundle.map()[tid] == byte_rows(b_vals)[k]);
                    } else {
                        assert(!pa.col_requested(tids@, c)) by {
                            if pa.col_requested(tids@, c) {
                                let k = choose|k: int|
                                    0 <= k < tids@.len() && pa.col_of(tids@[k]) == c;
                                lemma_find_from(pa.ids(), tids@[k], 0);
                                assert(pa.types@[c].id == tids@[k]);
                                assert(ids_of(b_infos)[k] == tids@[k]);
                                assert(ids_of(b_infos).contains(tid));
                            }
                        }
                        assert(qa.comp(c, row as int) == pa.comp(c, row as int));
                    }
                }
                assert(post.comp_map(entity) =~= pre.comp_map(entity).union_prefer_right(
                    bundle.map(),
                ));
            }
            // every other entity's map is untouched
            assert forall|e2: Entity| e2 != entity
                implies post.comp_map(e2) == pre.comp_map(e2) by {
                assert forall|j: int| 0 <= j < pre.archetypes.archetypes@.len()
                    implies (#[trigger] pre.archetypes.archetypes@[j]).contains_entity(e2)
                        == post.archetypes.archetypes@[j].contains_entity(e2) by {
                    assert(pre.archetypes.arch(j).entities@
                        == post.archetypes.arch(j).entities@);
                }
                lemma_holder_equiv(
                    pre.archetypes.archetypes@,
                    post.archetypes.archetypes@,
                    e2,
                    0,
                );
                if pre.lives(e2) {
                    let h = pre.holder_of(e2);
                    lemma_find_holder_from(pre.archetypes.archetypes@, e2, 0);
                    let pa2 = pre.archetypes.arch(h);
                    let qa2 = post.archetypes.arch(h);
                    assert forall|tid: u64| #[trigger] pa2.has_tid(tid)
                        implies qa2.comp_of(e2, tid) == pa2.comp_of(e2, tid) by {
                        if h == ss {
                            let r2 = pa.row_of(e2);
                            lemma_find_from(pa.entities@, e2, 0);
                            lemma_find_from(pa.entities@, entity, 0);
                            assert(r2 != row as int) by {
                                if r2 == row as int {
                                    assert(pa.entities@[r2] == e2);
                                    assert(pa.entities@[row as int] == entity);
                                }
                            }
                            lemma_find_from(pa2.ids(), tid, 0);
                            assert(qa2.comp(pa2.col_of(tid), r2)
                                == pa2.comp(pa2.col_of(tid), r2));
                        } else {
                            assert(qa2 == pa2);
                        }
                    }
                    assert(post.comp_map(e2) =~= pre.comp_map(e2));
                } else {
                    assert(!post.lives(e2));
                }
            }
            // the world stays well formed
            assert forall|i: int, r2: int|
                0 <= i < post.archetypes.n()
                    && 0 <= r2 < post.archetypes.arch(i).entities@.len()
                implies (#[trigger] post.archetypes.arch(i).entities@[r2]).0
                    < post.next_entity by {
                assert(post.archetypes.arch(i).entities@
                    == pre.archetypes.arch(i).entities@);
                assert(pre.archetypes.arch(i).entities@[r2].0 < pre.next_entity);
            }
        }
        true
    }

    /// Copies of the records an entity holds for a list of types, in the
    /// requested order; `None` if the entity holds no row or lacks one of
    /// the types.
    pub fn get(&self, entity: Entity, type_ids: &Vec<u64>) -> (r: Option<Vec<Vec<u8>>>)
        requires
            self.wf(),
        ensures
            (r is Some) == (self.get_spec(entity, type_ids@) is Some),
            r matches Some(out) ==> Some(byte_rows(out@)) == self.get_spec(entity, type_ids@),
    {
        match self.archetypes.get_by_entity_index(entity) {
            None => None,
            Some(i) => {
                proof {
                    assert(self.archetypes.arch(i as int).wf());
                }
                let a = self.archetypes.at(i);
                let out = a.get(entity, type_ids);
                proof {
                    let m = self.comp_map(entity);
                    match &out {
                        None => {
                            assert(!a.is_superset_of(type_ids@));
                            let k = choose|k: int|
                                0 <= k < type_ids@.len() && !a.has_tid(type_ids@[k]);
                            assert(!m.dom().contains(type_ids@[k]));
                        },
                        Some(v) => {
                            assert forall|k: int| 0 <= k < type_ids@.len()
                                implies m.dom().contains(type_ids@[k]) by {
                                assert(a.has_tid(type_ids@[k]));
                            }
                            assert(byte_rows(v@) =~= Seq::new(
                                type_ids@.len(),
                                |k: int| m[type_ids@[k]],
                            ));
                        },
                    }
                }
                out
            },
        }
    }

    /// A read-only iterator over the rows of every archetype whose type set
    /// is a superset of the requested types. The candidate archetypes are
    /// snapshotted now: archetypes created later are not visible, and each
    /// candidate row is yielded exactly once.
    pub fn query(&self, type_ids: Vec<u64>) -> (r: Query)
        requires
            self.wf(),
        ensures
            r.wf_for(*self),
            r.type_ids@ == type_ids@,
            r.yielded(*self) == 0,
            forall|a: int, b: int| 0 <= a < b < r.archetypes@.len()
                ==> r.archetypes@[a] < r.archetypes@[b],
            forall|i: usize| i < self.archetypes.n()
                && (#[trigger] self.archetypes.arch(i as int)).is_superset_of(type_ids@)
                ==> r.archetypes@.contains(i),
    {
        let indices = self.archetypes.get_similiar(&type_ids);
        Query::new(indices, type_ids)
    }

    /// The mutable variant of `query`: the same snapshot and enumeration,
    /// plus the right to overwrite the records of the row yielded last.
    /// Each row is yielded exactly once, so no two writes alias.
    pub fn query_mut(&self, type_ids: Vec<u64>) -> (r: QueryMut)
        requires
            self.wf(),
            distinct(type_ids@),
        ensures
            r.wf_for(*self),
            r.type_ids@ == type_ids@,
            r.yielded(*self) == 0,
            !r.has_current,
            forall|a: int, b: int| 0 <= a < b < r.archetypes@.len()
                ==> r.archetypes@[a] < r.archetypes@[b],
            forall|i: usize| i < self.archetypes.n()
                && (#[trigger] self.archetypes.arch(i as int)).is_superset_of(type_ids@)
                ==> r.archetypes@.contains(i),
    {
        let indices = self.archetypes.get_similiar(&type_ids);
        QueryMut::new(indices, type_ids)
    }

    /// Whether the archetype keyed by exactly this type set holds a row
    /// for the entity.
    pub fn has(&self, entity: Entity, type_ids: &Vec<u64>) -> (r: bool)
        requires
            self.wf(),
        ensures
            r == exists|i: int|
                0 <= i < self.archetypes.n()
                    && same_ids((#[trigger] self.archetypes.arch(i)).ids(), type_ids@)
                    && self.archetypes.arch(i).contains_entity(entity),
            r ==> self.lives(entity),
    {
        match self.archetypes.get_index(type_ids) {
            None => {
                proof {
                    if exists|j: int|
                        0 <= j < self.archetypes.n()
                            && same_ids(
                            (#[trigger] self.archetypes.arch(j)).ids(),
                            type_ids@,
                        ) && self.archetypes.arch(j).contains_entity(entity) {
                        let j = choose|j: int|
                            0 <= j < self.archetypes.n()
                                && same_ids(
                                (#[trigger] self.archetypes.arch(j)).ids(),
                                type_ids@,
                            ) && self.archetypes.arch(j).contains_entity(entity);
                        assert(!same_ids(self.archetypes.arch(j).ids(), type_ids@));
                    }
                }
                false
            },
            Some(i) => {
                proof {
                    assert(self.archetypes.arch(i as int).wf());
                }
                let r = self.archetypes.at(i).has(entity);
                proof {
                    if r {
                        assert(exists|j: int|
                            0 <= j < self.archetypes.n()
                                && same_ids(
                                (#[trigger] self.archetypes.arch(j)).ids(),
                                type_ids@,
                            ) && self.archetypes.arch(j).contains_entity(entity)) by {
                            assert((i as int) < self.archetypes.n());
                            assert(same_ids(self.archetypes.arch(i as int).ids(), type_ids@));
                            assert(self.archetypes.arch(i as int).contains_entity(entity));
                        }
                    }
                    if !r {
                        assert(!(exists|j: int|
                            0 <= j < self.archetypes.n()
                                && same_ids(
                                (#[trigger] self.archetypes.arch(j)).ids(),
                                type_ids@,
                            ) && self.archetypes.arch(j).contains_entity(entity))) by {
                            if exists|j: int|
                                0 <= j < self.archetypes.n()
                                    && same_ids(
                                    (#[trigger] self.archetypes.arch(j)).ids(),
                                    type_ids@,
                                ) && self.archetypes.arch(j).contains_entity(entity) {
                                let j = choose|j: int|
                                    0 <= j < self.archetypes.n()
                                        && same_ids(
                                        (#[trigger] self.archetypes.arch(j)).ids(),
                                        type_ids@,
                                    ) && self.archetypes.arch(j).contains_entity(entity);
                                let ii = i as int;
                                if j != ii {
                                    assert(same_ids(
                                        self.archetypes.arch(ii).ids(),
                                        self.archetypes.arch(j).ids(),
                                    )) by {
                                        assert forall|x: u64|
                                            self.archetypes.arch(ii).ids().contains(x)
                                                == self.archetypes.arch(j).ids().contains(x)
                                        by {
                                            assert(self.archetypes.arch(ii).ids().contains(x)
                                                == type_ids@.contains(x));
                                            assert(self.archetypes.arch(j).ids().contains(x)
                                                == type_ids@.contains(x));
                                        }
                                    }
                                    if ii < j {
                                        assert(!same_ids(
                                            self.archetypes.arch(ii).ids(),
                                            self.archetypes.arch(j).ids(),
                                        ));
                                    } else {
                                        assert(!same_ids(
                                            self.archetypes.arch(j).ids(),
                                            self.archetypes.arch(ii).ids(),
                                        ));
                                        assert(same_ids(
                                            self.archetypes.arch(j).ids(),
                                            self.archetypes.arch(ii).ids(),
                                        ));
                                    }
                                    assert(false);
                                }
                            }
                        }
                    }
                }
                r
            },
        }
    }
}

/// The number of rows in a well-formed archetype is bounded by any bound
/// on its entity identifiers: distinct entities have distinct ids.
pub proof fn lemma_rows_bounded(a: Archetype, bound: u64)
    requires
        distinct(a.entities@),
        forall|r: int| 0 <= r < a.entities@.len()
            ==> (#[trigger] a.entities@[r]).0 < bound,
    ensures
        a.entities@.len() <= bound,
{
    let ids: Seq<int> = a.entities@.map_values(|e: Entity| e.0 as int);
    assert(ids.no_duplicates()) by {
        assert forall|x: int, y: int|
            0 <= x < ids.len() && 0 <= y < ids.len() && x != y
            implies ids[x] != ids[y] by {
            if x < y {
                assert(a.entities@[x] != a.entities@[y]);
            } else {
                assert(a.entities@[y] != a.entities@[x]);
            }
        }
    }
    ids.unique_seq_to_set();
    lemma_int_range(0, bound as int);
    assert(ids.to_set().subset_of(set_int_range(0, bound as int))) by {
        assert forall|x: int| ids.to_set().contains(x)
            implies set_int_range(0, bound as int).contains(x) by {
            let k = choose|k: int| 0 <= k < ids.len() && ids[k] == x;
            assert(a.entities@[k].0 < bound);
        }
    }
    lemma_len_subset(ids.to_set(), set_int_range(0, bound as int));
}

/// A living entity's holder index is in range and its archetype holds it.
pub proof fn lemma_holder_props(w: World, e: Entity)
    requires
        w.lives(e),
    ensures
        0 <= w.holder_of(e) < w.archetypes.n(),
        w.archetypes.arch(w.holder_of(e)).contains_entity(e),
{
    lemma_find_holder_from(w.archetypes.archetypes@, e, 0);
    assert(w.holder_of(e) != -1) by {
        if w.holder_of(e) == -1 {
            let i = choose|i: int|
                0 <= i < w.archetypes.n()
                    && (#[trigger] w.archetypes.arch(i)).contains_entity(e);
            assert(!w.archetypes.archetypes@[i].contains_entity(e));
        }
    }
}

/// In a well-formed world, the archetype holding an entity is unique: any
/// archetype found to hold it is the holder.
pub proof fn lemma_holder_unique(w: World, e: Entity, i: int)
    requires
        w.wf(),
        0 <= i < w.archetypes.n(),
        w.archetypes.arch(i).contains_entity(e),
    ensures
        w.lives(e),
        w.holder_of(e) == i,
{
    assert(w.lives(e));
    lemma_holder_props(w, e);
    let h = w.holder_of(e);
    if h != i {
        assert(w.archetypes.arch(h).contains_entity(e));
        assert(!w.archetypes.arch(i).contains_entity(e));
    }
}

/// Two archetype lists in which every archetype holds the entity equally
/// agree on which archetype is the entity's holder.
pub proof fn lemma_holder_equiv(s1: Seq<Archetype>, s2: Seq<Archetype>, e: Entity, k: int)
    requires
        0 <= k <= s1.len(),
        s1.len() == s2.len(),
        forall|j: int| 0 <= j < s1.len()
            ==> (#[trigger] s1[j]).contains_entity(e) == s2[j].contains_entity(e),
    ensures
        find_holder_from(s1, e, k) == find_holder_from(s2, e, k),
    decreases s1.len() - k,
{
    if k < s1.len() && !s1[k].contains_entity(e) {
        lemma_holder_equiv(s1, s2, e, k + 1);
    }
}

/// Extending an archetype list by archetypes that do not hold the entity,
/// while every common archetype holds it equally, leaves the entity's
/// holder unchanged.
pub proof fn lemma_holder_extend(s1: Seq<Archetype>, s2: Seq<Archetype>, e: Entity, k: int)
    requires
        0 <= k <= s2.len(),
        s1.len() <= s2.len(),
        forall|j: int| 0 <= j < s1.len()
            ==> (#[trigger] s1[j]).contains_entity(e) == s2[j].contains_entity(e),
        forall|j: int| s1.len() <= j < s2.len()
            ==> !(#[trigger] s2[j]).contains_entity(e),
    ensures
        find_holder_from(s2, e, k) == find_holder_from(s1, e, k),
    decreases s2.len() - k,
{
    if k < s2.len() {
        if k < s1.len() {
            if !s1[k].contains_entity(e) {
                lemma_holder_extend(s1, s2, e, k + 1);
            }
        } else {
            lemma_holder_extend(s1, s2, e, k + 1);
        }
    }
}

/// The component map of a living entity is the map described by its
/// archetype's type list and its whole row.
pub proof fn lemma_comp_map_as_bundle_map(w: World, e: Entity)
    requires
        w.wf(),
        w.lives(e),
    ensures
        0 <= w.holder_of(e) < w.archetypes.n(),
        w.archetypes.arch(w.holder_of(e)).contains_entity(e),
        w.comp_map(e) == bundle_map(
            w.archetypes.arch(w.holder_of(e)).types@,
            w.archetypes.arch(w.holder_of(e)).row_snapshot(
                w.archetypes.arch(w.holder_of(e)).row_of(e),
            ),
        ),
{
    lemma_find_holder_from(w.archetypes.archetypes@, e, 0);
    assert(find_holder_from(w.archetypes.archetypes@, e, 0) != -1) by {
        if find_holder_from(w.archetypes.archetypes@, e, 0) == -1 {
            let i = choose|i: int|
                0 <= i < w.archetypes.n()
                    && (#[trigger] w.archetypes.arch(i)).contains_entity(e);
            assert(!w.archetypes.archetypes@[i].contains_entity(e));
        }
    }
    let a = w.archetypes.arch(w.holder_of(e));
    assert(a.wf());
    let row = a.row_of(e);
    let m2 = bundle_map(a.types@, a.row_snapshot(row));
    assert forall|tid: u64| #[trigger] a.has_tid(tid)
        implies a.comp_of(e, tid) == m2[tid] by {
        lemma_find_from(a.ids(), tid, 0);
        assert(a.row_snapshot(row)[a.col_of(tid)] == a.comp(a.col_of(tid), row));
    }
    assert(w.comp_map(e) =~= m2);
}

/// Index of the first registry entry carrying one identifier.
fn find_info(infos: &Vec<TypeInfo>, tid: u64) -> (r: Option<usize>)
    ensures
        match r {
            Some(j) => j as int == find_from(ids_of(infos@), tid, 0) && j < infos@.len()
                && infos@[j as int].id == tid && ids_of(infos@).contains(tid),
            None => !ids_of(infos@).contains(tid),
        },
{
    proof {
        lemma_find_from(ids_of(infos@), tid, 0);
    }
    let n: usize = infos.len();
    let mut j: usize = 0;
    while j < n
        invariant
            j <= n,
            n == infos@.len(),
            forall|x: int| 0 <= x < j ==> ids_of(infos@)[x] != tid,
            find_from(ids_of(infos@), tid, 0) == find_from(ids_of(infos@), tid, j as int),
        decreases n - j,
    {
        if infos[j].id == tid {
            return Some(j);
        }
        j = j + 1;
    }
    proof {
        if ids_of(infos@).contains(tid) {
            let w = choose|x: int|
                0 <= x < ids_of(infos@).len() && ids_of(infos@)[x] == tid;
            assert(ids_of(infos@)[w] != tid);
        }
    }
    None
}

/// Reorders a row given in one column order into another column order over
/// the same type set, copying each record to its place.
fn align_row(target: &Vec<TypeInfo>, infos: &Vec<TypeInfo>, vals: &Vec<Vec<u8>>) -> (r: Vec<
    Vec<u8>,
>)
    requires
        distinct(ids_of(target@)),
        distinct(ids_of(infos@)),
        same_ids(ids_of(target@), ids_of(infos@)),
        vals@.len() == infos@.len(),
        forall|k: int| 0 <= k < vals@.len()
            ==> (#[trigger] vals@[k])@.len() == infos@[k].size,
        forall|c: int, k: int|
            0 <= c < target@.len() && 0 <= k < infos@.len()
                && (#[trigger] target@[c]).id == (#[trigger] infos@[k]).id
                ==> target@[c].size == infos@[k].size,
    ensures
        r@.len() == target@.len(),
        forall|c: int| 0 <= c < target@.len()
            ==> (#[trigger] r@[c])@ == bundle_map(infos@, byte_rows(vals@))[target@[c].id],
        forall|c: int| 0 <= c < target@.len()
            ==> (#[trigger] r@[c])@.len() == target@[c].size,
{
    let n: usize = target.len();
    let mut r: Vec<Vec<u8>> = Vec::new();
    let mut c: usize = 0;
    while c < n
        invariant
            c <= n,
            n == target@.len(),
            distinct(ids_of(target@)),
            distinct(ids_of(infos@)),
            same_ids(ids_of(target@), ids_of(infos@)),
            vals@.len() == infos@.len(),
            forall|k: int| 0 <= k < vals@.len()
                ==> (#[trigger] vals@[k])@.len() == infos@[k].size,
            forall|c2: int, k: int|
                0 <= c2 < target@.len() && 0 <= k < infos@.len()
                    && (#[trigger] target@[c2]).id == (#[trigger] infos@[k]).id
                    ==> target@[c2].size == infos@[k].size,
            r@.len() == c,
            forall|c2: int| 0 <= c2 < c
                ==> (#[trigger] r@[c2])@
                    == bundle_map(infos@, byte_rows(vals@))[target@[c2].id],
            forall|c2: int| 0 <= c2 < c
                ==> (#[trigger] r@[c2])@.len() == target@[c2].size,
        decreases n - c,
    {
        proof {
            assert(ids_of(target@)[c as int] == target@[c as int].id);
            assert(ids_of(target@).contains(target@[c as int].id));
        }
        let j: usize = match find_info(infos, target[c].id) {
            Some(j) => j,
            None => {
                proof {
                    assert(false);
                }
                0
            },
        };
        let value = clone_bytes(&vals[j]);
        let ghost v: Seq<u8> = value@;
        r.push(value);
        proof {
            assert(v == byte_rows(vals@)[j as int]);
            assert(bundle_map(infos@, byte_rows(vals@))[target@[c as int].id]
                == byte_rows(vals@)[find_from(ids_of(infos@), target@[c as int].id, 0)]);
            assert(r@[c as int]@ == v);
        }
        c = c + 1;
    }
    r
}

} // verus!
