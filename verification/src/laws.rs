use vstd::prelude::*;

use crate::archetype::{find_from, lemma_find_from, lemma_find_unique};
use crate::bundle::Bundle;
use crate::entity::Entity;
use crate::query::{lemma_nth_row_at, lemma_rows_before_mono, nth_row, Query};
use crate::world::{lemma_holder_props, World};

verus! {

/// Round trip: after `World::add` has inserted a bundle for an entity, a
/// read of the same type list returns exactly the inserted records, in
/// declared order. `w0` is the world before the call and `w1` after; the
/// premises are what `add` requires of its caller and what it ensures of
/// the entity.
pub proof fn lemma_round_trip(w0: World, w1: World, e: Entity, b: Bundle)
    requires
        b.wf(),
        forall|k: int| 0 <= k < b.ids().len()
            ==> !w0.comp_map(e).dom().contains(#[trigger] b.ids()[k]),
        w1.lives(e),
        w1.comp_map(e) == w0.comp_map(e).union_prefer_right(b.map()),
    ensures
        w1.get_spec(e, b.ids()) == Some(b.vals()),
{
    let ids = b.ids();
    let m = w1.comp_map(e);
    assert forall|k: int| 0 <= k < ids.len()
        implies m.dom().contains(#[trigger] ids[k]) by {
        assert(ids.contains(ids[k]));
        assert(b.map().dom().contains(ids[k]));
    }
    assert forall|k: int| 0 <= k < ids.len()
        implies m[#[trigger] ids[k]] == b.vals()[k] by {
        assert(ids.contains(ids[k]));
        assert(b.map().dom().contains(ids[k]));
        assert(m[ids[k]] == b.map()[ids[k]]);
        lemma_find_unique(ids, ids[k], k);
        assert(b.map()[ids[k]] == b.vals()[find_from(ids, ids[k], 0)]);
    }
    assert(Seq::new(ids.len(), |k: int| m[ids[k]]) =~= b.vals());
}

/// Migration preserves data: adding bundle `a` and then a disjoint bundle
/// `b` to the same entity leaves both bundles' records readable, unchanged,
/// under the united type list. `w0`, `w1`, `w2` are the worlds before the
/// first `add`, between the two, and after the second; the premises are
/// what the two calls require and ensure of the entity.
pub proof fn lemma_migration_preserves_data(
    w0: World,
    w1: World,
    w2: World,
    e: Entity,
    a: Bundle,
    b: Bundle,
)
    requires
        a.wf(),
        b.wf(),
        forall|k: int| 0 <= k < a.ids().len()
            ==> !w0.comp_map(e).dom().contains(#[trigger] a.ids()[k]),
        w1.comp_map(e) == w0.comp_map(e).union_prefer_right(a.map()),
        forall|k: int| 0 <= k < b.ids().len()
            ==> !w1.comp_map(e).dom().contains(#[trigger] b.ids()[k]),
        w2.lives(e),
        w2.comp_map(e) == w1.comp_map(e).union_prefer_right(b.map()),
    ensures
        w2.get_spec(e, a.ids() + b.ids()) == Some(a.vals() + b.vals()),
{
    let ids = a.ids() + b.ids();
    let vals = a.vals() + b.vals();
    let na = a.ids().len() as int;
    let m = w2.comp_map(e);
    assert forall|k: int| 0 <= k < ids.len()
        implies m.dom().contains(#[trigger] ids[k]) && m[ids[k]] == vals[k] by {
        if k < na {
            let tid = a.ids()[k];
            assert(ids[k] == tid);
            assert(a.ids().contains(tid));
            assert(a.map().dom().contains(tid));
            assert(w1.comp_map(e).dom().contains(tid));
            assert(w1.comp_map(e)[tid] == a.map()[tid]);
            assert(!b.map().dom().contains(tid)) by {
                if b.ids().contains(tid) {
                    let j = choose|j: int| 0 <= j < b.ids().len() && b.ids()[j] == tid;
                    assert(!w1.comp_map(e).dom().contains(b.ids()[j]));
                }
            }
            assert(m[tid] == w1.comp_map(e)[tid]);
            lemma_find_unique(a.ids(), tid, k);
            assert(a.map()[tid] == a.vals()[k]);
            assert(vals[k] == a.vals()[k]);
        } else {
            let tid = b.ids()[k - na];
            assert(ids[k] == tid);
            assert(b.ids().contains(tid));
            assert(b.map().dom().contains(tid));
            assert(m[tid] == b.map()[tid]);
            lemma_find_unique(b.ids(), tid, k - na);
            assert(b.map()[tid] == b.vals()[k - na]);
            assert(vals[k] == b.vals()[k - na]);
        }
    }
    assert(Seq::new(ids.len(), |k: int| m[ids[k]]) =~= vals);
}

/// Swap-remove isolation: an operation that leaves another entity's
/// component map and liveness untouched — as `World::remove` and
/// `World::destroy` ensure for every other entity — leaves every read of
/// that entity unchanged, whatever rows were moved to fill the gap.
pub proof fn lemma_swap_remove_isolation(
    w0: World,
    w1: World,
    e1: Entity,
    e2: Entity,
    req: Seq<u64>,
)
    requires
        e1 != e2,
        w1.lives(e2) == w0.lives(e2),
        w1.comp_map(e2) == w0.comp_map(e2),
    ensures
        w1.get_spec(e2, req) == w0.get_spec(e2, req),
{
    if w0.lives(e2) && (forall|k: int|
        0 <= k < req.len() ==> w0.comp_map(e2).dom().contains(req[k])) {
        assert(Seq::new(req.len(), |k: int| w1.comp_map(e2)[req[k]]) =~= Seq::new(
            req.len(),
            |k: int| w0.comp_map(e2)[req[k]],
        ));
    }
}

/// Query completeness: every living entity whose archetype covers the
/// requested types has its stored records, in requested order, at some
/// position of a fresh query's enumeration — which `Query::next` yields
/// position by position, each exactly once. The premises about the
/// snapshot are what `World::query` ensures.
pub proof fn lemma_query_covers_entity(w: World, q: Query, e: Entity)
    requires
        w.wf(),
        q.wf_for(w),
        forall|i: usize| i < w.archetypes.n()
            && (#[trigger] w.archetypes.arch(i as int)).is_superset_of(q.type_ids@)
            ==> q.archetypes@.contains(i),
        w.lives(e),
        w.archetypes.arch(w.holder_of(e)).is_superset_of(q.type_ids@),
    ensures
        exists|n: int|
            0 <= n < q.total(w) && nth_row(w, q.archetypes@, q.type_ids@, 0, n) == Seq::new(
                q.type_ids@.len(),
                |k: int| w.comp_map(e)[q.type_ids@[k]],
            ),
{
    lemma_holder_props(w, e);
    let h = w.holder_of(e);
    let a = w.archetypes.arch(h);
    assert(a.wf());
    vstd::std_specs::vec::axiom_spec_len(&w.archetypes.archetypes);
    assert((h as usize) as int == h);
    assert(w.archetypes.arch((h as usize) as int).is_superset_of(q.type_ids@));
    assert(q.archetypes@.contains(h as usize));
    let k = choose|k: int| 0 <= k < q.archetypes@.len() && q.archetypes@[k] == h as usize;
    lemma_find_from(a.entities@, e, 0);
    let r = a.row_of(e);
    assert(0 <= r < a.rows());
    let idx = q.archetypes@;
    let ids = q.type_ids@;
    assert(crate::query::rows_at(w, idx, k) == a.rows()) by {
        assert(idx[k] == h as usize);
    }
    let n = crate::query::rows_before(w, idx, k) + r;
    lemma_nth_row_at(w, idx, ids, 0, k, r);
    lemma_rows_before_mono(w, idx, k + 1, idx.len() as int);
    assert(nth_row(w, idx, ids, 0, n) == a.row_view(ids, r));
    assert(a.row_view(ids, r) =~= Seq::new(ids.len(), |k2: int| w.comp_map(e)[ids[k2]])) by {
        assert forall|k2: int| 0 <= k2 < ids.len()
            implies a.row_view(ids, r)[k2] == w.comp_map(e)[ids[k2]] by {
            assert(a.has_tid(ids[k2]));
            assert(w.comp_map(e)[ids[k2]] == a.comp_of(e, ids[k2]));
        }
    }
    lemma_rows_before_mono(w, idx, 0, k);
    assert(crate::query::rows_before(w, idx, k + 1)
        == crate::query::rows_before(w, idx, k) + crate::query::rows_at(w, idx, k));
    assert(0 <= n < q.total(w));
}

/// Destroying an entity twice is the same as destroying it once: after one
/// `destroy`, the entity is neither on the books nor in any archetype, and
/// `destroy` on such an entity changes nothing — the idempotence that
/// `World::destroy` ensures.
pub proof fn lemma_destroy_idempotent(w0: World, w1: World, e: Entity)
    requires
        !w0.known(e),
        !w0.lives(e),
        // what a second destroy ensures, given that nothing held the entity
        w1.entities@ == w0.entities@,
        w1.archetypes.archetypes@ == w0.archetypes.archetypes@,
        w1.next_entity == w0.next_entity,
    ensures
        forall|e2: Entity| w1.comp_map(e2) == w0.comp_map(e2),
        forall|e2: Entity| w1.known(e2) == w0.known(e2),
        w1.next_entity == w0.next_entity,
{
    assert forall|e2: Entity| w1.comp_map(e2) == w0.comp_map(e2) by {
        assert forall|i: int| 0 <= i < w0.archetypes.n()
            implies #[trigger] w1.archetypes.arch(i) == w0.archetypes.arch(i) by {}
        assert(w1.lives(e2) == w0.lives(e2)) by {
            if w0.lives(e2) {
                let i = choose|i: int|
                    0 <= i < w0.archetypes.n()
                        && (#[trigger] w0.archetypes.arch(i)).contains_entity(e2);
                assert(w1.archetypes.arch(i).contains_entity(e2));
            }
            if w1.lives(e2) {
                let i = choose|i: int|
                    0 <= i < w1.archetypes.n()
                        && (#[trigger] w1.archetypes.arch(i)).contains_entity(e2);
                assert(w0.archetypes.arch(i).contains_entity(e2));
            }
        }
        if w0.lives(e2) {
            crate::world::lemma_holder_equiv(
                w0.archetypes.archetypes@,
                w1.archetypes.archetypes@,
                e2,
                0,
            );
            assert(w1.comp_map(e2) =~= w0.comp_map(e2));
        }
    }
}

} // verus!
