use vstd::prelude::*;

use crate::archetype::{byte_rows, distinct, lemma_find_from, lemma_find_unique};
use crate::bundle::tid_map;
use crate::entity::Entity;
use crate::world::{lemma_holder_equiv, lemma_holder_props, lemma_holder_unique, World};

verus! {

/// Number of live rows of the candidate at one position of a snapshot.
pub open spec fn rows_at(w: World, indices: Seq<usize>, k: int) -> int {
    w.archetypes.arch(indices[k] as int).rows()
}

/// Total number of live rows in the candidates before position `k`.
pub open spec fn rows_before(w: World, indices: Seq<usize>, k: int) -> int
    decreases k,
{
    if k <= 0 {
        0
    } else {
        rows_before(w, indices, k - 1) + rows_at(w, indices, k - 1)
    }
}

/// The records that row number `n` of the candidate snapshot holds for the
/// requested types, counting rows across candidates from position `k` on.
pub open spec fn nth_row(w: World, indices: Seq<usize>, ids: Seq<u64>, k: int, n: int) -> Seq<
    Seq<u8>,
>
    decreases indices.len() - k,
{
    if k < 0 || k >= indices.len() {
        Seq::empty()
    } else if n < rows_at(w, indices, k) {
        w.archetypes.arch(indices[k] as int).row_view(ids, n)
    } else {
        nth_row(w, indices, ids, k + 1, n - rows_at(w, indices, k))
    }
}

pub proof fn lemma_rows_before_mono(w: World, indices: Seq<usize>, k1: int, k2: int)
    requires
        0 <= k1 <= k2,
    ensures
        rows_before(w, indices, k1) <= rows_before(w, indices, k2),
    decreases k2 - k1,
{
    if k1 < k2 {
        lemma_rows_before_mono(w, indices, k1, k2 - 1);
    }
}

/// Row number `rows_before(ai) - rows_before(k) + ci` of the snapshot,
/// counted from position `k`, is row `ci` of the candidate at position `ai`.
pub proof fn lemma_nth_row_at(
    w: World,
    indices: Seq<usize>,
    ids: Seq<u64>,
    k: int,
    ai: int,
    ci: int,
)
    requires
        0 <= k <= ai < indices.len(),
        0 <= ci < rows_at(w, indices, ai),
    ensures
        nth_row(
            w,
            indices,
            ids,
            k,
            rows_before(w, indices, ai) - rows_before(w, indices, k) + ci,
        ) == w.archetypes.arch(indices[ai] as int).row_view(ids, ci),
    decreases ai - k,
{
    if k < ai {
        lemma_nth_row_at(w, indices, ids, k + 1, ai, ci);
        lemma_rows_before_mono(w, indices, k + 1, ai);
    }
}

/// A stateless forward iterator over a fixed snapshot of candidate
/// archetypes, yielding each live row exactly once. Candidates are
/// addressed by registry index; archetypes created after the snapshot was
/// taken are not visible.
pub struct Query {
    pub archetypes: Vec<usize>,
    pub type_ids: Vec<u64>,
    pub archetype_index: usize,
    pub current_index: usize,
}

impl Query {
    /// The snapshot is valid for a world: every candidate index is in
    /// range and names a superset archetype, and the cursor is within
    /// bounds.
    pub open spec fn wf_for(self, w: World) -> bool {
        &&& w.wf()
        &&& forall|k: int| 0 <= k < self.archetypes@.len()
            ==> (#[trigger] self.archetypes@[k]) < w.archetypes.n()
        &&& forall|k: int| 0 <= k < self.archetypes@.len()
            ==> w.archetypes.arch((#[trigger] self.archetypes@[k]) as int).is_superset_of(
                self.type_ids@,
            )
        &&& self.archetype_index <= self.archetypes@.len()
        &&& (self.archetype_index == self.archetypes@.len() ==> self.current_index == 0)
        &&& (self.archetype_index < self.archetypes@.len()
            ==> self.current_index <= rows_at(w, self.archetypes@, self.archetype_index as int))
    }

    /// How many rows the cursor has already yielded.
    pub open spec fn yielded(self, w: World) -> int {
        rows_before(w, self.archetypes@, self.archetype_index as int) + self.current_index
    }

    /// How many rows the snapshot holds in total.
    pub open spec fn total(self, w: World) -> int {
        rows_before(w, self.archetypes@, self.archetypes@.len() as int)
    }

    /// Builds a fresh cursor over a snapshot of candidate registry indices.
    pub fn new(archetypes: Vec<usize>, type_ids: Vec<u64>) -> (r: Self)
        ensures
            r.archetypes@ == archetypes@,
            r.type_ids@ == type_ids@,
            r.archetype_index == 0,
            r.current_index == 0,
    {
        Query { archetypes, type_ids, archetype_index: 0, current_index: 0 }
    }

    /// Yields the next row's records, in requested-type order, skipping
    /// exhausted candidates; `None` once every row has been yielded.
    pub fn next(&mut self, world: &World) -> (r: Option<Vec<Vec<u8>>>)
        requires
            old(self).wf_for(*world),
        ensures
            final(self).wf_for(*world),
            final(self).archetypes@ == old(self).archetypes@,
            final(self).type_ids@ == old(self).type_ids@,
            match r {
                None => old(self).yielded(*world) == old(self).total(*world)
                    && final(self).yielded(*world) == old(self).yielded(*world),
                Some(out) => {
                    &&& old(self).yielded(*world) < old(self).total(*world)
                    &&& final(self).yielded(*world) == old(self).yielded(*world) + 1
                    &&& byte_rows(out@) == nth_row(
                        *world,
                        old(self).archetypes@,
                        old(self).type_ids@,
                        0,
                        old(self).yielded(*world),
                    )
                },
            },
    {
        let n: usize = self.archetypes.len();
        while self.archetype_index < n
            invariant
                n == self.archetypes@.len(),
                self.wf_for(*world),
                self.archetypes@ == old(self).archetypes@,
                self.type_ids@ == old(self).type_ids@,
                self.yielded(*world) == old(self).yielded(*world),
            decreases n - self.archetype_index,
        {
            let ai = self.archetype_index;
            let arch_index = self.archetypes[ai];
            proof {
                assert(world.archetypes.arch(arch_index as int).wf());
            }
            let a = world.archetypes.at(arch_index);
            if self.current_index < a.len() {
                let out = match a.get_by_index(self.current_index, &self.type_ids) {
                    Some(out) => out,
                    None => {
                        proof {
                            assert(false);
                        }
                        Vec::new()
                    },
                };
                proof {
                    let w = *world;
                    let idx = self.archetypes@;
                    let ci = self.current_index as int;
                    lemma_nth_row_at(w, idx, self.type_ids@, 0, ai as int, ci);
                    lemma_rows_before_mono(w, idx, ai as int + 1, idx.len() as int);
                }
                self.current_index = self.current_index + 1;
                return Some(out);
            }
            self.archetype_index = self.archetype_index + 1;
            self.current_index = 0;
        }
        None
    }
}

/// The mutable variant of `Query`: it yields rows the same way, remembers
/// the position it yielded last, and can write that row's requested
/// records back in place.
pub struct QueryMut {
    pub archetypes: Vec<usize>,
    pub type_ids: Vec<u64>,
    pub archetype_index: usize,
    pub current_index: usize,
    pub has_current: bool,
    pub current_archetype: usize,
    pub current_row: usize,
}

impl QueryMut {
    /// The snapshot is valid for a world; the requested types are distinct
    /// so that no two of the row's records alias, and the remembered
    /// position, if any, names a live row of a candidate archetype.
    pub open spec fn wf_for(self, w: World) -> bool {
        &&& w.wf()
        &&& distinct(self.type_ids@)
        &&& forall|k: int| 0 <= k < self.archetypes@.len()
            ==> (#[trigger] self.archetypes@[k]) < w.archetypes.n()
        &&& forall|k: int| 0 <= k < self.archetypes@.len()
            ==> w.archetypes.arch((#[trigger] self.archetypes@[k]) as int).is_superset_of(
                self.type_ids@,
            )
        &&& self.archetype_index <= self.archetypes@.len()
        &&& (self.archetype_index == self.archetypes@.len() ==> self.current_index == 0)
        &&& (self.archetype_index < self.archetypes@.len()
            ==> self.current_index <= rows_at(w, self.archetypes@, self.archetype_index as int))
        &&& (self.has_current ==> {
            &&& (self.current_archetype as int) < w.archetypes.n()
            &&& w.archetypes.arch(self.current_archetype as int).is_superset_of(self.type_ids@)
            &&& (self.current_row as int) < w.archetypes.arch(
                self.current_archetype as int,
            ).rows()
        })
    }

    /// How many rows the cursor has already yielded.
    pub open spec fn yielded(self, w: World) -> int {
        rows_before(w, self.archetypes@, self.archetype_index as int) + self.current_index
    }

    /// How many rows the snapshot holds in total.
    pub open spec fn total(self, w: World) -> int {
        rows_before(w, self.archetypes@, self.archetypes@.len() as int)
    }

    /// The entity whose row the cursor yielded last.
    pub open spec fn current_entity(self, w: World) -> Entity {
        w.archetypes.arch(self.current_archetype as int).entities@[self.current_row as int]
    }

    /// Builds a fresh cursor over a snapshot of candidate registry indices.
    pub fn new(archetypes: Vec<usize>, type_ids: Vec<u64>) -> (r: Self)
        ensures
            r.archetypes@ == archetypes@,
            r.type_ids@ == type_ids@,
            r.archetype_index == 0,
            r.current_index == 0,
            !r.has_current,
    {
        QueryMut {
            archetypes,
            type_ids,
            archetype_index: 0,
            current_index: 0,
            has_current: false,
            current_archetype: 0,
            current_row: 0,
        }
    }

    /// Yields the next row's records, in requested-type order, skipping
    /// exhausted candidates, and remembers the row's position so that
    /// `write` can update it; `None` once every row has been yielded.
    pub fn next(&mut self, world: &World) -> (r: Option<Vec<Vec<u8>>>)
        requires
            old(self).wf_for(*world),
        ensures
            final(self).wf_for(*world),
            final(self).archetypes@ == old(self).archetypes@,
            final(self).type_ids@ == old(self).type_ids@,
            match r {
                None => old(self).yielded(*world) == old(self).total(*world)
                    && final(self).yielded(*world) == old(self).yielded(*world)
                    && final(self).has_current == old(self).has_current
                    && final(self).current_archetype == old(self).current_archetype
                    && final(self).current_row == old(self).current_row,
                Some(out) => {
                    &&& old(self).yielded(*world) < old(self).total(*world)
                    &&& final(self).yielded(*world) == old(self).yielded(*world) + 1
                    &&& byte_rows(out@) == nth_row(
                        *world,
                        old(self).archetypes@,
                        old(self).type_ids@,
                        0,
                        old(self).yielded(*world),
                    )
                    &&& final(self).has_current
                    &&& byte_rows(out@) == world.archetypes.arch(
                        final(self).current_archetype as int,
                    ).row_view(final(self).type_ids@, final(self).current_row as int)
                },
            },
    {
        let n: usize = self.archetypes.len();
        while self.archetype_index < n
            invariant
                n == self.archetypes@.len(),
                self.wf_for(*world),
                self.archetypes@ == old(self).archetypes@,
                self.type_ids@ == old(self).type_ids@,
                self.yielded(*world) == old(self).yielded(*world),
                self.has_current == old(self).has_current,
                self.current_archetype == old(self).current_archetype,
                self.current_row == old(self).current_row,
            decreases n - self.archetype_index,
        {
            let ai = self.archetype_index;
            let arch_index = self.archetypes[ai];
            proof {
                assert(world.archetypes.arch(arch_index as int).wf());
            }
            let a = world.archetypes.at(arch_index);
            if self.current_index < a.len() {
                let out = match a.get_by_index(self.current_index, &self.type_ids) {
                    Some(out) => out,
                    None => {
                        proof {
                            assert(false);
                        }
                        Vec::new()
                    },
                };
                proof {
                    let w = *world;
                    let idx = self.archetypes@;
                    let ci = self.current_index as int;
                    lemma_nth_row_at(w, idx, self.type_ids@, 0, ai as int, ci);
                    lemma_rows_before_mono(w, idx, ai as int + 1, idx.len() as int);
                }
                self.has_current = true;
                self.current_archetype = arch_index;
                self.current_row = self.current_index;
                self.current_index = self.current_index + 1;
                return Some(out);
            }
            self.archetype_index = self.archetype_index + 1;
            self.current_index = 0;
        }
        None
    }

    /// Overwrites, in place, the requested records of the row yielded last.
    /// The row's entity keeps every other component; no other row anywhere
    /// is touched.
    pub fn write(&self, world: &mut World, values: Vec<Vec<u8>>)
        requires
            old(world).wf(),
            self.wf_for(*old(world)),
            self.has_current,
            values@.len() == self.type_ids@.len(),
            forall|k: int| 0 <= k < self.type_ids@.len()
                ==> (#[trigger] values@[k])@.len()
                    == old(world).archetypes.arch(self.current_archetype as int).types@[
                    old(world).archetypes.arch(self.current_archetype as int).col_of(
                        self.type_ids@[k],
                    )].size,
        ensures
            final(world).wf(),
            self.wf_for(*final(world)),
            final(world).next_entity == old(world).next_entity,
            final(world).entities@ == old(world).entities@,
            forall|e2: Entity| final(world).lives(e2) == old(world).lives(e2),
            final(world).comp_map(self.current_entity(*old(world)))
                == old(world).comp_map(self.current_entity(*old(world))).union_prefer_right(
                tid_map(self.type_ids@, byte_rows(values@)),
            ),
            forall|e2: Entity| e2 != self.current_entity(*old(world))
                ==> final(world).comp_map(e2) == old(world).comp_map(e2),
    {
        let ghost pre: World = *old(world);
        let ghost ss: int = self.current_archetype as int;
        let ghost pa = pre.archetypes.arch(ss);
        let ghost entity: Entity = self.current_entity(pre);
        let ghost b_vals: Seq<Vec<u8>> = values@;
        proof {
            assert(pa.wf());
        }
        world.archetypes.arch_set_components(
            self.current_archetype,
            self.current_row,
            &self.type_ids,
            values,
        );
        proof {
            let post = *final(world);
            let qa = post.archetypes.arch(ss);
            let tids = self.type_ids@;
            let row = self.current_row as int;
            assert(pa.contains_entity(entity));
            assert forall|i: int| 0 <= i < post.archetypes.n()
                implies (#[trigger] post.archetypes.arch(i)).entities@
                    == pre.archetypes.arch(i).entities@
                    && post.archetypes.arch(i).types@ == pre.archetypes.arch(i).types@ by {
                if i != ss {
                    assert(post.archetypes.arch(i) == pre.archetypes.arch(i));
                }
            }
            assert forall|e2: Entity| post.lives(e2) == pre.lives(e2) by {
                if post.lives(e2) {
                    let j = choose|j: int|
                        0 <= j < post.archetypes.n()
                            && (#[trigger] post.archetypes.arch(j)).contains_entity(e2);
                    assert(pre.archetypes.arch(j).entities@
                        == post.archetypes.arch(j).entities@);
                    assert(pre.archetypes.arch(j).contains_entity(e2));
                }
                if pre.lives(e2) {
                    let j = choose|j: int|
                        0 <= j < pre.archetypes.n()
                            && (#[trigger] pre.archetypes.arch(j)).contains_entity(e2);
                    assert(post.archetypes.arch(j).contains_entity(e2));
                }
            }
            assert(pre.holder_of(entity) == ss && pre.lives(entity)) by {
                lemma_holder_unique(pre, entity, ss);
            }
            assert(pa.row_of(entity) == row) by {
                lemma_find_unique(pa.entities@, entity, row);
            }
            assert forall|e2: Entity| true
                implies post.holder_of(e2) == pre.holder_of(e2) by {
                assert forall|j: int| 0 <= j < pre.archetypes.archetypes@.len()
                    implies (#[trigger] pre.archetypes.archetypes@[j]).contains_entity(e2)
                        == post.archetypes.archetypes@[j].contains_entity(e2) by {
                    assert(pre.archetypes.arch(j).entities@
                        == post.archetypes.arch(j).entities@);
                }
                lemma_holder_equiv(
                    pre.archetypes.archetypes@,
                    post.archetypes.archetypes@,
                    e2,
                    0,
                );
            }
            // the yielded row's entity gains exactly the written records
            assert(post.comp_map(entity) == pre.comp_map(entity).union_prefer_right(
                tid_map(tids, byte_rows(b_vals)),
            )) by {
                assert forall|tid: u64| #[trigger] qa.has_tid(tid)
                    implies qa.comp_of(entity, tid) == pre.comp_map(entity)
                        .union_prefer_right(tid_map(tids, byte_rows(b_vals)))[tid] by {
                    lemma_find_from(qa.ids(), tid, 0);
                    let c = qa.col_of(tid);
                    assert(qa.types@[c].id == tid);
                    if tids.contains(tid) {
                        lemma_find_from(tids, tid, 0);
                        let k = crate::archetype::find_from(tids, tid, 0);
                        assert(tids[k] == tid);
                        assert(pa.col_of(tids[k]) == c);
                        assert(qa.comp(pa.col_of(tids[k]), row) == b_vals[k]@);
                        assert(tid_map(tids, byte_rows(b_vals))[tid] == byte_rows(b_vals)[k]);
                    } else {
                        assert(!pa.col_requested(tids, c)) by {
                            if pa.col_requested(tids, c) {
                                let k = choose|k: int|
                                    0 <= k < tids.len() && pa.col_of(tids[k]) == c;
                                lemma_find_from(pa.ids(), tids[k], 0);
                                assert(pa.types@[c].id == tids[k]);
                                assert(tids.contains(tid));
                            }
                        }
                        assert(qa.comp(c, row) == pa.comp(c, row));
                    }
                }
                assert(post.comp_map(entity) =~= pre.comp_map(entity).union_prefer_right(
                    tid_map(tids, byte_rows(b_vals)),
                ));
            }
            // every other entity's map is untouched
            assert forall|e2: Entity| e2 != entity
                implies post.comp_map(e2) == pre.comp_map(e2) by {
                if pre.lives(e2) {
                    let h = pre.holder_of(e2);
                    lemma_holder_props(pre, e2);
                    let pa2 = pre.archetypes.arch(h);
                    let qa2 = post.archetypes.arch(h);
                    assert forall|tid: u64| #[trigger] pa2.has_tid(tid)
                        implies qa2.comp_of(e2, tid) == pa2.comp_of(e2, tid) by {
                        if h == ss {
                            let r2 = pa.row_of(e2);
                            lemma_find_from(pa.entities@, e2, 0);
                            assert(r2 != row) by {
                                if r2 == row {
                                    assert(pa.entities@[r2] == e2);
                                }
                            }
                            lemma_find_from(pa2.ids(), tid, 0);
                            assert(qa2.comp(pa2.col_of(tid), r2)
                                == pa2.comp(pa2.col_of(tid), r2));
                        } else {
                            assert(qa2 == pa2);
                        }
                    }
                    assert(post.comp_map(e2) =~= pre.comp_map(e2));
                } else {
                    assert(!post.lives(e2));
                }
            }
            // the world stays well formed
            assert forall|i: int, r2: int|
                0 <= i < post.archetypes.n()
                    && 0 <= r2 < post.archetypes.arch(i).entities@.len()
                implies (#[trigger] post.archetypes.arch(i).entities@[r2]).0
                    < post.next_entity by {
                assert(post.archetypes.arch(i).entities@
                    == pre.archetypes.arch(i).entities@);
                assert(pre.archetypes.arch(i).entities@[r2].0 < pre.next_entity);
            }
        }
    }
}

} // verus!
